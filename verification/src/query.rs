//! The query engine: locating every occurrence of a query's minimizer
//! sequence in the suffix array and filtering the candidate positions.
//!
//! A query is answered in minimizer space. Its minimizer sequence is
//! extended by one sentinel anchor: a run of `#` bytes, below every
//! upper-case base, for the lower bound, and a run of `}` bytes, above
//! every upper-case base, for the upper bound. Binary searches with the
//! symbolic comparator bracket the half-open suffix-array interval of the
//! suffixes that begin with the query's minimizer k-mers; boundary,
//! delta and partial-verification filters then drop unusable candidates.

use vstd::prelude::*;

verus! {

use core::cmp::Ordering;
use crate::compare::{
    compare_minimizer_sequences,
    lemma_msuffix_cmp_trans,
    msuffix_cmp,
    msuffix_le,
    positions_in,
};
use crate::index::{msuffix, IndexView, MinimizerStringData};
use crate::minimizers::{lemma_minimizer_seq_bounds, minimizer_seq};
use crate::order::{bytes_cmp, kmer_at, lemma_bytes_cmp_eq, lemma_bytes_cmp_refl};
use crate::to_ints;

/// The lower-bound sentinel text: `k` copies of the `#` byte.
pub open spec fn low_sentinel_run(k: int) -> Seq<u8> {
    Seq::new(k as nat, |x: int| 35u8)
}

/// The upper-bound sentinel text: `k` copies of the `}` byte.
pub open spec fn high_sentinel_run(k: int) -> Seq<u8> {
    Seq::new(k as nat, |x: int| 125u8)
}

/// The query extended with the lower-bound sentinel run.
pub open spec fn query_low(q: Seq<u8>, k: int) -> Seq<u8> {
    q + low_sentinel_run(k)
}

/// The query extended with the upper-bound sentinel run.
pub open spec fn query_high(q: Seq<u8>, k: int) -> Seq<u8> {
    q + high_sentinel_run(k)
}

/// The pattern position list: the query's minimizer anchors followed by
/// the sentinel anchor, which sits at offset `|q|` of the extended query.
pub open spec fn pattern_positions(q: Seq<u8>, k: int, w: int) -> Seq<int> {
    minimizer_seq(q, k, w) + seq![q.len() as int]
}

/// How many of the first `n` suffix-array entries hold a minimizer suffix
/// that compares `Less` than the pattern.
pub open spec fn count_less(dv: IndexView, pat_s: Seq<u8>, pat: Seq<int>, n: int) -> int
    decreases n,
{
    if n <= 0 {
        0
    } else {
        count_less(dv, pat_s, pat, n - 1) + if msuffix_cmp(
            dv.reference,
            msuffix(dv.minimizer_sequence, dv.minimizer_sa[n - 1]),
            pat_s,
            pat,
            dv.minimizer_k,
        ) == Ordering::Less {
            1int
        } else {
            0int
        }
    }
}

/// The lower end of the query's suffix-array interval: the number of
/// suffixes strictly below the `#`-extended pattern.
pub open spec fn match_lo(dv: IndexView, q: Seq<u8>) -> int {
    count_less(
        dv,
        query_low(q, dv.minimizer_k),
        pattern_positions(q, dv.minimizer_k, dv.window_w),
        dv.minimizer_sa.len() as int,
    )
}

/// The upper end of the query's suffix-array interval: the number of
/// suffixes strictly below the `}`-extended pattern.
pub open spec fn match_hi(dv: IndexView, q: Seq<u8>) -> int {
    count_less(
        dv,
        query_high(q, dv.minimizer_k),
        pattern_positions(q, dv.minimizer_k, dv.window_w),
        dv.minimizer_sa.len() as int,
    )
}

/// Finds the boundary of the pattern inside `[left, right)` of the suffix
/// array: the smallest index whose minimizer suffix is not `Less` than the
/// pattern. Entries below the result compare `Less`, entries from the
/// result on do not.
pub fn bin_search(
    left: usize,
    right: usize,
    minimizer_sequence_indices: &Vec<usize>,
    minimizer_sa: &Vec<usize>,
    pattern_minimizer_indices: &Vec<usize>,
    original_reference: &[u8],
    original_query_sequence: &[u8],
    k: usize,
) -> (res: usize)
    requires
        left <= right <= minimizer_sa@.len(),
        minimizer_sa@.len() == minimizer_sequence_indices@.len(),
        forall|x: int|
            0 <= x < minimizer_sa@.len() ==> #[trigger] to_ints(minimizer_sa@)[x]
                < minimizer_sa@.len(),
        positions_in(to_ints(minimizer_sequence_indices@), original_reference@),
        positions_in(to_ints(pattern_minimizer_indices@), original_query_sequence@),
        forall|a: int, b: int|
            left <= a < b < right ==> msuffix_le(
                original_reference@,
                msuffix(to_ints(minimizer_sequence_indices@), #[trigger] to_ints(minimizer_sa@)[a]),
                original_reference@,
                msuffix(to_ints(minimizer_sequence_indices@), #[trigger] to_ints(minimizer_sa@)[b]),
                k as int,
            ),
    ensures
        left <= res <= right,
        forall|x: int|
            left <= x < res ==> msuffix_cmp(
                original_reference@,
                msuffix(to_ints(minimizer_sequence_indices@), #[trigger] to_ints(minimizer_sa@)[x]),
                original_query_sequence@,
                to_ints(pattern_minimizer_indices@),
                k as int,
            ) == Ordering::Less,
        forall|x: int|
            res <= x < right ==> msuffix_cmp(
                original_reference@,
                msuffix(to_ints(minimizer_sequence_indices@), #[trigger] to_ints(minimizer_sa@)[x]),
                original_query_sequence@,
                to_ints(pattern_minimizer_indices@),
                k as int,
            ) != Ordering::Less,
{
    let ghost rv = original_reference@;
    let ghost qv = original_query_sequence@;
    let ghost ms = to_ints(minimizer_sequence_indices@);
    let ghost sav = to_ints(minimizer_sa@);
    let ghost pat = to_ints(pattern_minimizer_indices@);
    let mut l = left;
    let mut r = right;
    while l < r
        invariant
            left <= l <= r <= right <= minimizer_sa@.len(),
            minimizer_sa@.len() == minimizer_sequence_indices@.len(),
            rv == original_reference@,
            qv == original_query_sequence@,
            ms == to_ints(minimizer_sequence_indices@),
            sav == to_ints(minimizer_sa@),
            pat == to_ints(pattern_minimizer_indices@),
            forall|x: int| 0 <= x < sav.len() ==> #[trigger] sav[x] < sav.len(),
            positions_in(ms, rv),
            positions_in(pat, qv),
            forall|a: int, b: int|
                left <= a < b < right ==> msuffix_le(
                    rv,
                    msuffix(ms, #[trigger] sav[a]),
                    rv,
                    msuffix(ms, #[trigger] sav[b]),
                    k as int,
                ),
            forall|x: int|
                left <= x < l ==> msuffix_cmp(
                    rv,
                    msuffix(ms, #[trigger] sav[x]),
                    qv,
                    pat,
                    k as int,
                ) == Ordering::Less,
            forall|x: int|
                r <= x < right ==> msuffix_cmp(
                    rv,
                    msuffix(ms, #[trigger] sav[x]),
                    qv,
                    pat,
                    k as int,
                ) != Ordering::Less,
        decreases r - l,
    {
        let m = l + (r - l) / 2;
        proof {
            assert(sav[m as int] < sav.len());
        }
        let c = compare_minimizer_sequences(
            Some(minimizer_sa[m]),
            None,
            minimizer_sequence_indices.as_slice(),
            pattern_minimizer_indices.as_slice(),
            original_reference,
            original_query_sequence,
            k,
        );
        proof {
            assert(pat.skip(0) =~= pat);
        }
        if matches!(c, Ordering::Less) {
            proof {
                assert forall|x: int| left <= x < m + 1 implies msuffix_cmp(
                    rv,
                    msuffix(ms, #[trigger] sav[x]),
                    qv,
                    pat,
                    k as int,
                ) == Ordering::Less by {
                    if x < m {
                        lemma_msuffix_cmp_trans(
                            rv,
                            msuffix(ms, sav[x]),
                            rv,
                            msuffix(ms, sav[m as int]),
                            qv,
                            pat,
                            k as int,
                        );
                    }
                }
            }
            l = m + 1;
        } else {
            proof {
                assert forall|x: int| m <= x < right implies msuffix_cmp(
                    rv,
                    msuffix(ms, #[trigger] sav[x]),
                    qv,
                    pat,
                    k as int,
                ) != Ordering::Less by {
                    if x > m {
                        if msuffix_cmp(rv, msuffix(ms, sav[x]), qv, pat, k as int)
                            == Ordering::Less {
                            lemma_msuffix_cmp_trans(
                                rv,
                                msuffix(ms, sav[m as int]),
                                rv,
                                msuffix(ms, sav[x]),
                                qv,
                                pat,
                                k as int,
                            );
                        }
                    }
                }
            }
            r = m;
        }
    }
    l
}

/// A boundary splits the counted range: when everything below `split`
/// compares `Less` and nothing from `split` on does, the count of `Less`
/// entries is exactly `split`.
proof fn lemma_count_less_bracketing(
    dv: IndexView,
    pat_s: Seq<u8>,
    pat: Seq<int>,
    split: int,
    n: int,
)
    requires
        0 <= split <= n,
        forall|x: int|
            0 <= x < split ==> msuffix_cmp(
                dv.reference,
                msuffix(dv.minimizer_sequence, #[trigger] dv.minimizer_sa[x]),
                pat_s,
                pat,
                dv.minimizer_k,
            ) == Ordering::Less,
        forall|x: int|
            split <= x < n ==> msuffix_cmp(
                dv.reference,
                msuffix(dv.minimizer_sequence, #[trigger] dv.minimizer_sa[x]),
                pat_s,
                pat,
                dv.minimizer_k,
            ) != Ordering::Less,
    ensures
        count_less(dv, pat_s, pat, n) == split,
    decreases n,
{
    if n > 0 {
        if n <= split {
            lemma_count_less_bracketing(dv, pat_s, pat, n - 1, n - 1);
        } else {
            lemma_count_less_bracketing(dv, pat_s, pat, split, n - 1);
        }
    }
}

/// The count of `Less` entries lies between `0` and `n`.
proof fn lemma_count_less_bounds(dv: IndexView, pat_s: Seq<u8>, pat: Seq<int>, n: int)
    requires
        0 <= n,
    ensures
        0 <= count_less(dv, pat_s, pat, n) <= n,
    decreases n,
{
    if n > 0 {
        lemma_count_less_bounds(dv, pat_s, pat, n - 1);
    }
}

/// An entrywise weaker pattern can only raise the count.
proof fn lemma_count_less_mono(
    dv: IndexView,
    lo_s: Seq<u8>,
    hi_s: Seq<u8>,
    pat: Seq<int>,
    n: int,
)
    requires
        0 <= n,
        msuffix_cmp(lo_s, pat, hi_s, pat, dv.minimizer_k) == Ordering::Less,
    ensures
        count_less(dv, lo_s, pat, n) <= count_less(dv, hi_s, pat, n),
    decreases n,
{
    if n > 0 {
        lemma_count_less_mono(dv, lo_s, hi_s, pat, n - 1);
        let sfx = msuffix(dv.minimizer_sequence, dv.minimizer_sa[n - 1]);
        if msuffix_cmp(dv.reference, sfx, lo_s, pat, dv.minimizer_k) == Ordering::Less {
            lemma_msuffix_cmp_trans(
                dv.reference,
                sfx,
                lo_s,
                pat,
                hi_s,
                pat,
                dv.minimizer_k,
            );
        }
    }
}

/// Against the same position list, the `#`-extended query compares `Less`
/// than the `}`-extended one: the two texts agree on every anchor that
/// lies inside the query proper, and the sentinel anchors order strictly.
proof fn lemma_pattern_suffix_less(q: Seq<u8>, ppos: Seq<int>, k: int, i: int)
    requires
        1 <= k,
        1 <= ppos.len(),
        0 <= i < ppos.len(),
        ppos[ppos.len() - 1] == q.len(),
        forall|t: int|
            0 <= t < ppos.len() - 1 ==> 0 <= #[trigger] ppos[t] && ppos[t] + k <= q.len(),
    ensures
        msuffix_cmp(query_low(q, k), ppos.skip(i), query_high(q, k), ppos.skip(i), k)
            == Ordering::Less,
    decreases ppos.len() - i,
{
    let lo = query_low(q, k);
    let hi = query_high(q, k);
    let a = ppos.skip(i);
    assert(a.len() == ppos.len() - i >= 1);
    assert(a[0] == ppos[i]);
    if i == ppos.len() - 1 {
        let ka = kmer_at(lo, q.len() as int, k);
        let kb = kmer_at(hi, q.len() as int, k);
        assert(ka =~= low_sentinel_run(k));
        assert(kb =~= high_sentinel_run(k));
        assert(ka[0] == 35u8 && kb[0] == 125u8);
        assert(bytes_cmp(ka, kb) == Ordering::Less);
    } else {
        let p = ppos[i];
        let ka = kmer_at(lo, p, k);
        let kb = kmer_at(hi, p, k);
        assert(ka =~= kb);
        lemma_bytes_cmp_refl(ka);
        assert(a.drop_first() =~= ppos.skip(i + 1));
        lemma_pattern_suffix_less(q, ppos, k, i + 1);
    }
}

/// The pattern position list of a query is valid for both extended texts,
/// and the `#`-extended pattern orders strictly below the `}`-extended one.
proof fn lemma_pattern_positions_facts(q: Seq<u8>, k: int, w: int)
    requires
        1 <= k <= w,
    ensures
        ({
            let ppos = pattern_positions(q, k, w);
            &&& ppos.len() >= 1
            &&& ppos[ppos.len() - 1] == q.len()
            &&& forall|t: int|
                0 <= t < ppos.len() - 1 ==> 0 <= #[trigger] ppos[t] && ppos[t] + k <= q.len()
            &&& positions_in(ppos, query_low(q, k))
            &&& positions_in(ppos, query_high(q, k))
            &&& msuffix_cmp(query_low(q, k), ppos, query_high(q, k), ppos, k) == Ordering::Less
        }),
{
    let ppos = pattern_positions(q, k, w);
    lemma_minimizer_seq_bounds(q, k, w);
    assert forall|t: int| 0 <= t < ppos.len() - 1 implies 0 <= #[trigger] ppos[t] && ppos[t] + k
        <= q.len() by {
        assert(ppos[t] == minimizer_seq(q, k, w)[t]);
    }
    lemma_pattern_suffix_less(q, ppos, k, 0);
    assert(ppos.skip(0) =~= ppos);
}

/// The boundary filter: the aligned occurrence must start inside the
/// reference and must end before the terminal run appended at build time.
/// `p` is the candidate anchor position, `qpos0` the offset of the first
/// minimizer inside the query.
pub open spec fn boundary_ok(dv: IndexView, q: Seq<u8>, qpos0: int, p: int) -> bool {
    &&& p >= qpos0
    &&& p + (q.len() - qpos0 - 1) < dv.reference.len() - dv.minimizer_k
}

/// One step of the delta filter: anchor `j + 1` of the reference suffix
/// exists and is spaced from anchor `j` exactly like the query's anchors
/// `j` and `j + 1`.
pub open spec fn delta_step_ok(dv: IndexView, qpos: Seq<int>, sa_entry: int, j: int) -> bool {
    &&& sa_entry + j + 1 < dv.minimizer_sequence.len()
    &&& dv.minimizer_sequence[sa_entry + j + 1] - dv.minimizer_sequence[sa_entry + j] == qpos[j + 1]
        - qpos[j]
}

/// The delta filter: for the first `delta_check_ct` steps, consecutive
/// anchors of the reference suffix must be spaced exactly like the
/// query's anchors. A suffix too short to supply the compared anchors
/// fails the filter.
pub open spec fn delta_ok(dv: IndexView, qpos: Seq<int>, sa_entry: int, delta_check_ct: int) -> bool {
    forall|j: int|
        0 <= j < delta_check_ct && j + 1 < qpos.len() ==> #[trigger] delta_step_ok(
            dv,
            qpos,
            sa_entry,
            j,
        )
}

/// The delta filter holds for the first `hi` anchor steps.
pub open spec fn delta_prefix_ok(dv: IndexView, qpos: Seq<int>, sa_entry: int, hi: int) -> bool {
    forall|x: int| 0 <= x < hi ==> #[trigger] delta_step_ok(dv, qpos, sa_entry, x)
}

proof fn lemma_delta_prefix_to_ok(dv: IndexView, qpos: Seq<int>, sa_entry: int, hi: int, ct: int)
    requires
        delta_prefix_ok(dv, qpos, sa_entry, hi),
        hi >= ct || hi + 1 >= qpos.len(),
    ensures
        delta_ok(dv, qpos, sa_entry, ct),
{
    assert forall|j: int| 0 <= j < ct && j + 1 < qpos.len() implies #[trigger] delta_step_ok(
        dv,
        qpos,
        sa_entry,
        j,
    ) by {
        assert(j < hi);
        assert(delta_step_ok(dv, qpos, sa_entry, j));
    }
}

/// Query offset `i` lies inside some minimizer k-mer of the query.
pub open spec fn covered_by_kmer(qpos: Seq<int>, i: int, k: int) -> bool {
    exists|j: int| 0 <= j < qpos.len() && #[trigger] qpos[j] <= i < qpos[j] + k
}

/// The partial base-space verification, resumed at query offset `i` with
/// `c` comparisons already made: scanning left to right, offsets covered
/// by a minimizer k-mer are skipped, and the first `limit - c` surviving
/// offsets must match the reference at the aligned position `start + i`.
pub open spec fn partial_ok_from(
    rv: Seq<u8>,
    q: Seq<u8>,
    qpos: Seq<int>,
    k: int,
    start: int,
    i: int,
    c: int,
    limit: int,
) -> bool
    decreases q.len() - i,
{
    if i >= q.len() || c >= limit {
        true
    } else if covered_by_kmer(qpos, i, k) {
        partial_ok_from(rv, q, qpos, k, start, i + 1, c, limit)
    } else {
        q[i] == rv[start + i] && partial_ok_from(rv, q, qpos, k, start, i + 1, c + 1, limit)
    }
}

/// The partial filter for a candidate anchored at `p`.
pub open spec fn partial_ok(dv: IndexView, q: Seq<u8>, qpos: Seq<int>, p: int, limit: int) -> bool {
    partial_ok_from(dv.reference, q, qpos, dv.minimizer_k, p - qpos[0], 0, 0, limit)
}

/// Whether the candidate at suffix-array index `idx` survives all three
/// filters.
pub open spec fn candidate_kept(
    dv: IndexView,
    q: Seq<u8>,
    qpos: Seq<int>,
    idx: int,
    partial_ct: int,
    delta_ct: int,
) -> bool {
    let sa_e = dv.minimizer_sa[idx];
    let p = dv.minimizer_sequence[sa_e];
    &&& boundary_ok(dv, q, qpos[0], p)
    &&& delta_ok(dv, qpos, sa_e, delta_ct)
    &&& partial_ok(dv, q, qpos, p, partial_ct)
}

/// The aligned start positions of the candidates in `[lo, hi)` of the
/// suffix array that survive the filters, in suffix-array order.
pub open spec fn matches_in(
    dv: IndexView,
    q: Seq<u8>,
    qpos: Seq<int>,
    lo: int,
    hi: int,
    partial_ct: int,
    delta_ct: int,
) -> Seq<int>
    decreases hi - lo,
{
    if lo >= hi {
        Seq::empty()
    } else {
        let rest = matches_in(dv, q, qpos, lo + 1, hi, partial_ct, delta_ct);
        if candidate_kept(dv, q, qpos, lo, partial_ct, delta_ct) {
            seq![dv.minimizer_sequence[dv.minimizer_sa[lo]] - qpos[0]] + rest
        } else {
            rest
        }
    }
}

/// Everything a query returns: the surviving aligned starts of the
/// candidates inside the query's suffix-array interval, or nothing when
/// the query is too short to have a minimizer.
pub open spec fn query_matches(dv: IndexView, q: Seq<u8>, partial_ct: int, delta_ct: int) -> Seq<
    int,
> {
    let qpos = minimizer_seq(q, dv.minimizer_k, dv.window_w);
    if qpos.len() == 0 {
        Seq::empty()
    } else {
        matches_in(dv, q, qpos, match_lo(dv, q), match_hi(dv, q), partial_ct, delta_ct)
    }
}

/// Interval monotonicity: the query interval is well ordered inside the
/// suffix array, `0 <= lo <= hi <= |SA|`.
pub proof fn lemma_interval_monotonic(dv: IndexView, q: Seq<u8>)
    requires
        1 <= dv.minimizer_k <= dv.window_w,
    ensures
        0 <= match_lo(dv, q) <= match_hi(dv, q) <= dv.minimizer_sa.len(),
{
    let ppos = pattern_positions(q, dv.minimizer_k, dv.window_w);
    let n = dv.minimizer_sa.len() as int;
    lemma_pattern_positions_facts(q, dv.minimizer_k, dv.window_w);
    lemma_count_less_bounds(dv, query_low(q, dv.minimizer_k), ppos, n);
    lemma_count_less_bounds(dv, query_high(q, dv.minimizer_k), ppos, n);
    lemma_count_less_mono(
        dv,
        query_low(q, dv.minimizer_k),
        query_high(q, dv.minimizer_k),
        ppos,
        n,
    );
}

/// Copies `q` and appends `k` copies of the byte `b`: the transient
/// sentinel-extended text used by one binary search.
fn extend_with_run(q: &Vec<u8>, b: u8, k: usize) -> (r: Vec<u8>)
    requires
        q@.len() + k <= usize::MAX,
    ensures
        r@ == q@ + Seq::new(k as nat, |x: int| b),
{
    let mut r: Vec<u8> = Vec::new();
    let n = q.len();
    let mut i: usize = 0;
    while i < n
        invariant
            i <= n == q@.len(),
            r@ == q@.subrange(0, i as int),
        decreases n - i,
    {
        r.push(q[i]);
        proof {
            assert(r@ =~= q@.subrange(0, i + 1));
        }
        i = i + 1;
    }
    proof {
        assert(r@ =~= q@);
    }
    let mut t: usize = 0;
    while t < k
        invariant
            t <= k,
            q@.len() + k <= usize::MAX,
            r@ == q@ + Seq::new(t as nat, |x: int| b),
        decreases k - t,
    {
        r.push(b);
        proof {
            assert(r@ =~= q@ + Seq::new((t + 1) as nat, |x: int| b));
        }
        t = t + 1;
    }
    r
}

/// Decides whether query offset `i` falls inside any minimizer k-mer of
/// the query.
fn position_covered(query_minimizer_indices: &Vec<usize>, i: usize, k: usize) -> (r: bool)
    ensures
        r == covered_by_kmer(to_ints(query_minimizer_indices@), i as int, k as int),
{
    let n = query_minimizer_indices.len();
    let mut j: usize = 0;
    while j < n
        invariant
            j <= n == query_minimizer_indices@.len(),
            forall|x: int|
                0 <= x < j ==> !(#[trigger] to_ints(query_minimizer_indices@)[x] <= i
                    < to_ints(query_minimizer_indices@)[x] + k),
        decreases n - j,
    {
        let p = query_minimizer_indices[j];
        if p <= i && i - p < k {
            proof {
                assert(to_ints(query_minimizer_indices@)[j as int] <= i < to_ints(
                    query_minimizer_indices@,
                )[j as int] + k);
            }
            return true;
        }
        j = j + 1;
    }
    false
}

/// Along a sorted suffix array the entries comparing `Less` than a fixed
/// pattern form a prefix, so the count of such entries separates them
/// exactly: entry `x` compares `Less` precisely when `x` lies below the
/// count.
proof fn lemma_count_characterizes(dv: IndexView, pat_s: Seq<u8>, pat: Seq<int>, n: int)
    requires
        dv.wf(),
        0 <= n <= dv.minimizer_sa.len(),
    ensures
        forall|x: int|
            0 <= x < n ==> ((x < count_less(dv, pat_s, pat, n)) <==> msuffix_cmp(
                dv.reference,
                msuffix(dv.minimizer_sequence, #[trigger] dv.minimizer_sa[x]),
                pat_s,
                pat,
                dv.minimizer_k,
            ) == Ordering::Less),
    decreases n,
{
    if n > 0 {
        lemma_count_characterizes(dv, pat_s, pat, n - 1);
        lemma_count_less_bounds(dv, pat_s, pat, n - 1);
        let rv = dv.reference;
        let ms = dv.minimizer_sequence;
        let k = dv.minimizer_k;
        if msuffix_cmp(rv, msuffix(ms, dv.minimizer_sa[n - 1]), pat_s, pat, k) == Ordering::Less {
            assert forall|x: int| 0 <= x < n - 1 implies msuffix_cmp(
                rv,
                msuffix(ms, #[trigger] dv.minimizer_sa[x]),
                pat_s,
                pat,
                k,
            ) == Ordering::Less by {
                crate::index::lemma_wf_sa_sorted(dv, x, n - 1);
                lemma_msuffix_cmp_trans(
                    rv,
                    msuffix(ms, dv.minimizer_sa[x]),
                    rv,
                    msuffix(ms, dv.minimizer_sa[n - 1]),
                    pat_s,
                    pat,
                    k,
                );
            }
            if count_less(dv, pat_s, pat, n - 1) < n - 1 {
                let x0 = count_less(dv, pat_s, pat, n - 1);
                assert(msuffix_cmp(rv, msuffix(ms, dv.minimizer_sa[x0]), pat_s, pat, k)
                    == Ordering::Less);
            }
            assert(count_less(dv, pat_s, pat, n) == n);
        }
    }
}

/// A suffix that the two sentinel patterns bracket walks the pattern's
/// anchors in lockstep: the suffix cannot run out before the sentinel
/// anchor, and its k-mers agree with the pattern's k-mers until then.
proof fn lemma_bracketed_prefix(
    rv: Seq<u8>,
    sfx: Seq<int>,
    q: Seq<u8>,
    ppos: Seq<int>,
    k: int,
    i: int,
)
    requires
        1 <= k,
        1 <= ppos.len(),
        0 <= i < ppos.len(),
        ppos[ppos.len() - 1] == q.len(),
        forall|t: int|
            0 <= t < ppos.len() - 1 ==> 0 <= #[trigger] ppos[t] && ppos[t] + k <= q.len(),
        i <= sfx.len(),
        msuffix_cmp(rv, sfx.skip(i), query_low(q, k), ppos.skip(i), k) != Ordering::Less,
        msuffix_cmp(rv, sfx.skip(i), query_high(q, k), ppos.skip(i), k) == Ordering::Less,
    ensures
        sfx.len() >= ppos.len(),
        forall|j: int|
            i <= j < ppos.len() - 1 ==> kmer_at(rv, #[trigger] sfx[j], k) == kmer_at(
                q,
                ppos[j],
                k,
            ),
    decreases ppos.len() - i,
{
    assert(ppos.skip(i).len() == ppos.len() - i >= 1);
    assert(sfx.skip(i).len() > 0);
    assert(sfx.skip(i)[0] == sfx[i]);
    assert(ppos.skip(i)[0] == ppos[i]);
    if i == ppos.len() - 1 {
        assert(sfx.len() >= i + 1);
    } else {
        let p0 = ppos[i];
        let ks = kmer_at(rv, sfx[i], k);
        let kq = kmer_at(q, p0, k);
        assert(kmer_at(query_low(q, k), p0, k) =~= kq);
        assert(kmer_at(query_high(q, k), p0, k) =~= kq);
        let c = bytes_cmp(ks, kq);
        assert(c == Ordering::Equal);
        lemma_bytes_cmp_eq(ks, kq);
        assert(sfx.skip(i).drop_first() =~= sfx.skip(i + 1));
        assert(ppos.skip(i).drop_first() =~= ppos.skip(i + 1));
        lemma_bracketed_prefix(rv, sfx, q, ppos, k, i + 1);
        assert forall|j: int| i <= j < ppos.len() - 1 implies kmer_at(rv, #[trigger] sfx[j], k)
            == kmer_at(q, ppos[j], k) by {
        }
    }
}

/// The sentinel discipline, as the searches rely on it: every suffix of
/// the query's bracketed interval begins with the query's minimizer
/// k-mers, and extends strictly beyond them.
pub proof fn lemma_interval_matches_prefix(dv: IndexView, q: Seq<u8>, idx: int)
    requires
        dv.wf(),
        match_lo(dv, q) <= idx < match_hi(dv, q),
    ensures
        0 <= idx < dv.minimizer_sa.len(),
        msuffix(dv.minimizer_sequence, dv.minimizer_sa[idx]).len() > minimizer_seq(
            q,
            dv.minimizer_k,
            dv.window_w,
        ).len(),
        forall|j: int|
            0 <= j < minimizer_seq(q, dv.minimizer_k, dv.window_w).len() ==> kmer_at(
                dv.reference,
                #[trigger] msuffix(dv.minimizer_sequence, dv.minimizer_sa[idx])[j],
                dv.minimizer_k,
            ) == kmer_at(q, minimizer_seq(q, dv.minimizer_k, dv.window_w)[j], dv.minimizer_k),
{
    let k = dv.minimizer_k;
    let w = dv.window_w;
    let qpos = minimizer_seq(q, k, w);
    let ppos = pattern_positions(q, k, w);
    let n = dv.minimizer_sa.len() as int;
    lemma_pattern_positions_facts(q, k, w);
    lemma_count_less_bounds(dv, query_low(q, k), ppos, n);
    lemma_count_less_bounds(dv, query_high(q, k), ppos, n);
    lemma_count_characterizes(dv, query_low(q, k), ppos, n);
    lemma_count_characterizes(dv, query_high(q, k), ppos, n);
    let sfx = msuffix(dv.minimizer_sequence, dv.minimizer_sa[idx]);
    assert(msuffix_cmp(dv.reference, sfx, query_low(q, k), ppos, k) != Ordering::Less);
    assert(msuffix_cmp(dv.reference, sfx, query_high(q, k), ppos, k) == Ordering::Less);
    assert(sfx.skip(0) =~= sfx);
    assert(ppos.skip(0) =~= ppos);
    assert(0 <= dv.minimizer_sa[idx] <= dv.minimizer_sequence.len());
    lemma_bracketed_prefix(dv.reference, sfx, q, ppos, k, 0);
    assert forall|j: int| 0 <= j < qpos.len() implies kmer_at(dv.reference, #[trigger] sfx[j], k)
        == kmer_at(q, qpos[j], k) by {
        assert(ppos[j] == qpos[j]);
        assert(kmer_at(dv.reference, sfx[j], k) == kmer_at(q, ppos[j], k));
    }
}

/// `q` occurs verbatim at position `p` of `rv`.
pub open spec fn occurs_at(rv: Seq<u8>, q: Seq<u8>, p: int) -> bool {
    &&& 0 <= p
    &&& p + q.len() <= rv.len()
    &&& rv.subrange(p, p + q.len()) == q
}

/// Whether the candidate at suffix-array index `idx` survives full
/// verification: the boundary filter, then a byte-for-byte comparison of
/// the whole aligned query against the reference.
pub open spec fn full_kept(dv: IndexView, q: Seq<u8>, qpos: Seq<int>, idx: int) -> bool {
    let p = dv.minimizer_sequence[dv.minimizer_sa[idx]];
    &&& boundary_ok(dv, q, qpos[0], p)
    &&& occurs_at(dv.reference, q, p - qpos[0])
}

/// The aligned start positions of the candidates in `[lo, hi)` that
/// survive full verification, in suffix-array order.
pub open spec fn full_matches_in(
    dv: IndexView,
    q: Seq<u8>,
    qpos: Seq<int>,
    lo: int,
    hi: int,
) -> Seq<int>
    decreases hi - lo,
{
    if lo >= hi {
        Seq::empty()
    } else {
        let rest = full_matches_in(dv, q, qpos, lo + 1, hi);
        if full_kept(dv, q, qpos, lo) {
            seq![dv.minimizer_sequence[dv.minimizer_sa[lo]] - qpos[0]] + rest
        } else {
            rest
        }
    }
}

/// What a query returns under full verification: the exactly matching
/// aligned starts inside the query's suffix-array interval.
pub open spec fn query_matches_full(dv: IndexView, q: Seq<u8>) -> Seq<int> {
    let qpos = minimizer_seq(q, dv.minimizer_k, dv.window_w);
    if qpos.len() == 0 {
        Seq::empty()
    } else {
        full_matches_in(dv, q, qpos, match_lo(dv, q), match_hi(dv, q))
    }
}

proof fn lemma_full_matches_in_sound(dv: IndexView, q: Seq<u8>, qpos: Seq<int>, lo: int, hi: int)
    ensures
        forall|t: int|
            0 <= t < full_matches_in(dv, q, qpos, lo, hi).len() ==> occurs_at(
                dv.reference,
                q,
                #[trigger] full_matches_in(dv, q, qpos, lo, hi)[t],
            ),
    decreases hi - lo,
{
    if lo < hi {
        let res = full_matches_in(dv, q, qpos, lo, hi);
        let rest = full_matches_in(dv, q, qpos, lo + 1, hi);
        lemma_full_matches_in_sound(dv, q, qpos, lo + 1, hi);
        assert forall|t: int| 0 <= t < res.len() implies occurs_at(
            dv.reference,
            q,
            #[trigger] res[t],
        ) by {
            if full_kept(dv, q, qpos, lo) {
                if t > 0 {
                    assert(res[t] == rest[t - 1]);
                }
            } else {
                assert(res[t] == rest[t]);
            }
        }
    }
}

/// Soundness of full verification: every position the full mode emits is
/// a verbatim occurrence of the query in the reference.
pub proof fn lemma_full_mode_sound(dv: IndexView, q: Seq<u8>)
    ensures
        forall|t: int|
            0 <= t < query_matches_full(dv, q).len() ==> occurs_at(
                dv.reference,
                q,
                #[trigger] query_matches_full(dv, q)[t],
            ),
{
    let qpos = minimizer_seq(q, dv.minimizer_k, dv.window_w);
    if qpos.len() != 0 {
        lemma_full_matches_in_sound(dv, q, qpos, match_lo(dv, q), match_hi(dv, q));
    }
}

/// Brackets the query's suffix-array interval with the two sentinel
/// binary searches: the result is `(match_lo, match_hi)`. The position
/// list temporarily gains the sentinel anchor during each search and is
/// handed back unchanged.
fn find_match_interval(
    data: &MinimizerStringData,
    original_query_sequence: &Vec<u8>,
    query_minimizer_indices: &mut Vec<usize>,
) -> (lr: (usize, usize))
    requires
        data@.wf(),
        original_query_sequence@.len() + data@.minimizer_k <= usize::MAX,
        to_ints(old(query_minimizer_indices)@) == minimizer_seq(
            original_query_sequence@,
            data@.minimizer_k,
            data@.window_w,
        ),
        old(query_minimizer_indices)@.len() >= 1,
    ensures
        final(query_minimizer_indices)@ == old(query_minimizer_indices)@,
        lr.0 as int == match_lo(data@, original_query_sequence@),
        lr.1 as int == match_hi(data@, original_query_sequence@),
        lr.0 <= lr.1 <= data@.minimizer_sa.len(),
{
    let ghost dv = data@;
    let ghost qv = original_query_sequence@;
    let k = data.minimizer_k;
    let w = data.window_w;
    let qlen = original_query_sequence.len();
    let n = data.minimizer_sa.len();
    let ghost qposv = minimizer_seq(qv, k as int, w as int);
    proof {
        lemma_minimizer_seq_bounds(qv, k as int, w as int);
        lemma_pattern_positions_facts(qv, k as int, w as int);
    }
    let ghost ppos = pattern_positions(qv, k as int, w as int);
    // bridge the well-formedness facts into the vector views the searches use
    proof {
        assert forall|x: int| 0 <= x < to_ints(data.minimizer_sa@).len() implies #[trigger] to_ints(
            data.minimizer_sa@,
        )[x] < to_ints(data.minimizer_sa@).len() by {
            assert(to_ints(data.minimizer_sa@)[x] == dv.minimizer_sa[x]);
        }
        assert forall|x: int| 0 <= x < to_ints(data.minimizer_sequence@).len() implies 0
            <= #[trigger] to_ints(data.minimizer_sequence@)[x] <= data.reference@.len() by {
            assert(to_ints(data.minimizer_sequence@)[x] == dv.minimizer_sequence[x]);
        }
        assert(positions_in(to_ints(data.minimizer_sequence@), data.reference@));
        assert forall|a: int, b: int| 0 <= a < b < n implies msuffix_le(
            data.reference@,
            msuffix(to_ints(data.minimizer_sequence@), #[trigger] to_ints(data.minimizer_sa@)[a]),
            data.reference@,
            msuffix(to_ints(data.minimizer_sequence@), #[trigger] to_ints(data.minimizer_sa@)[b]),
            k as int,
        ) by {
            assert(to_ints(data.minimizer_sa@)[a] == dv.minimizer_sa[a]);
            assert(to_ints(data.minimizer_sa@)[b] == dv.minimizer_sa[b]);
            assert(msuffix_le(
                dv.reference,
                msuffix(dv.minimizer_sequence, dv.minimizer_sa[a]),
                dv.reference,
                msuffix(dv.minimizer_sequence, dv.minimizer_sa[b]),
                dv.minimizer_k,
            ));
        }
    }
    // lower bound search against the #-extended query
    let query_low_text = extend_with_run(original_query_sequence, 35u8, k);
    query_minimizer_indices.push(qlen);
    proof {
        assert(query_low_text@ =~= query_low(qv, k as int));
        assert(to_ints(query_minimizer_indices@) =~= ppos);
        assert forall|x: int| 0 <= x < to_ints(query_minimizer_indices@).len() implies 0
            <= #[trigger] to_ints(query_minimizer_indices@)[x] <= query_low_text@.len() by {
            assert(to_ints(query_minimizer_indices@)[x] == ppos[x]);
            if x < ppos.len() - 1 {
                assert(ppos[x] + k <= qv.len());
            }
        }
    }
    let l = bin_search(
        0,
        n,
        &data.minimizer_sequence,
        &data.minimizer_sa,
        &query_minimizer_indices,
        data.reference.as_slice(),
        query_low_text.as_slice(),
        k,
    );
    proof {
        assert forall|x: int| 0 <= x < l implies msuffix_cmp(
            dv.reference,
            msuffix(dv.minimizer_sequence, #[trigger] dv.minimizer_sa[x]),
            query_low(qv, k as int),
            ppos,
            dv.minimizer_k,
        ) == Ordering::Less by {
            assert(to_ints(data.minimizer_sa@)[x] == dv.minimizer_sa[x]);
        }
        assert forall|x: int| l <= x < n implies msuffix_cmp(
            dv.reference,
            msuffix(dv.minimizer_sequence, #[trigger] dv.minimizer_sa[x]),
            query_low(qv, k as int),
            ppos,
            dv.minimizer_k,
        ) != Ordering::Less by {
            assert(to_ints(data.minimizer_sa@)[x] == dv.minimizer_sa[x]);
        }
        lemma_count_less_bracketing(dv, query_low(qv, k as int), ppos, l as int, n as int);
        assert(l as int == match_lo(dv, qv));
    }
    // upper bound search against the }-extended query
    let _ = query_minimizer_indices.pop();
    let query_high_text = extend_with_run(original_query_sequence, 125u8, k);
    query_minimizer_indices.push(qlen);
    proof {
        assert(query_high_text@ =~= query_high(qv, k as int));
        assert(to_ints(query_minimizer_indices@) =~= ppos);
        assert forall|x: int| 0 <= x < to_ints(query_minimizer_indices@).len() implies 0
            <= #[trigger] to_ints(query_minimizer_indices@)[x] <= query_high_text@.len() by {
            assert(to_ints(query_minimizer_indices@)[x] == ppos[x]);
            if x < ppos.len() - 1 {
                assert(ppos[x] + k <= qv.len());
            }
        }
    }
    let r = bin_search(
        l,
        n,
        &data.minimizer_sequence,
        &data.minimizer_sa,
        &query_minimizer_indices,
        data.reference.as_slice(),
        query_high_text.as_slice(),
        k,
    );
    proof {
        assert forall|x: int| 0 <= x < r implies msuffix_cmp(
            dv.reference,
            msuffix(dv.minimizer_sequence, #[trigger] dv.minimizer_sa[x]),
            query_high(qv, k as int),
            ppos,
            dv.minimizer_k,
        ) == Ordering::Less by {
            assert(to_ints(data.minimizer_sa@)[x] == dv.minimizer_sa[x]);
            if x < l {
                lemma_msuffix_cmp_trans(
                    dv.reference,
                    msuffix(dv.minimizer_sequence, dv.minimizer_sa[x]),
                    query_low(qv, k as int),
                    ppos,
                    query_high(qv, k as int),
                    ppos,
                    dv.minimizer_k,
                );
            }
        }
        assert forall|x: int| r <= x < n implies msuffix_cmp(
            dv.reference,
            msuffix(dv.minimizer_sequence, #[trigger] dv.minimizer_sa[x]),
            query_high(qv, k as int),
            ppos,
            dv.minimizer_k,
        ) != Ordering::Less by {
            assert(to_ints(data.minimizer_sa@)[x] == dv.minimizer_sa[x]);
        }
        lemma_count_less_bracketing(dv, query_high(qv, k as int), ppos, r as int, n as int);
        assert(r as int == match_hi(dv, qv));
    }
    let _ = query_minimizer_indices.pop();
    proof {
        assert(query_minimizer_indices@ =~= old(query_minimizer_indices)@);
    }
    (l, r)
}

/// Answers one query against the index: brackets the suffix-array
/// interval of the query's minimizer sequence with the two sentinel
/// searches, then returns the aligned start positions of the candidates
/// that survive the boundary, delta and partial-verification filters, in
/// suffix-array order. A query shorter than one window has no minimizer
/// and returns no candidates.
#[verifier::rlimit(60)]
pub fn process_query(
    data: &MinimizerStringData,
    original_query_sequence: &Vec<u8>,
    partial_check_ct: usize,
    delta_check_ct: usize,
) -> (matches: Vec<usize>)
    requires
        data@.wf(),
        original_query_sequence@.len() + data@.minimizer_k <= usize::MAX,
        data@.reference.len() + original_query_sequence@.len() <= usize::MAX,
    ensures
        to_ints(matches@) == query_matches(
            data@,
            original_query_sequence@,
            partial_check_ct as int,
            delta_check_ct as int,
        ),
{
    let ghost dv = data@;
    let ghost qv = original_query_sequence@;
    let k = data.minimizer_k;
    let w = data.window_w;
    let qlen = original_query_sequence.len();
    let ref_len = data.reference.len();
    let n = data.minimizer_sa.len();
    let m = data.minimizer_sequence.len();
    let mut matches: Vec<usize> = Vec::new();
    let mut query_minimizer_indices = crate::minimizers::compute_minimizers(
        original_query_sequence.as_slice(),
        k,
        w,
    );
    let ghost qposv = minimizer_seq(qv, k as int, w as int);
    if query_minimizer_indices.len() == 0 {
        return matches;
    }
    proof {
        lemma_minimizer_seq_bounds(qv, k as int, w as int);
        lemma_pattern_positions_facts(qv, k as int, w as int);
    }
    let ghost ppos = pattern_positions(qv, k as int, w as int);
    let lr = find_match_interval(data, original_query_sequence, &mut query_minimizer_indices);
    let l = lr.0;
    let r = lr.1;
    proof {
        assert(to_ints(query_minimizer_indices@) == qposv);
        assert(qposv[0] == minimizer_seq(qv, k as int, w as int)[0]);
        assert(qposv[0] + k <= qv.len());
    }
    let qpos0 = query_minimizer_indices[0];
    let qpos_len = query_minimizer_indices.len();
    // walk the interval and filter the candidates
    let mut i = l;
    while i < r
        invariant
            dv == data@,
            qv == original_query_sequence@,
            dv.wf(),
            qposv == minimizer_seq(qv, k as int, w as int),
            to_ints(query_minimizer_indices@) == qposv,
            1 <= qposv.len() == qpos_len,
            qpos0 == qposv[0],
            qpos0 + k <= qlen,
            k == data.minimizer_k,
            w == data.window_w,
            qlen == qv.len(),
            ref_len == dv.reference.len(),
            n == dv.minimizer_sa.len(),
            m == dv.minimizer_sequence.len(),
            ref_len + qlen <= usize::MAX,
            l <= i <= r <= n,
            matches_in(
                dv,
                qv,
                qposv,
                l as int,
                r as int,
                partial_check_ct as int,
                delta_check_ct as int,
            ) == to_ints(matches@) + matches_in(
                dv,
                qv,
                qposv,
                i as int,
                r as int,
                partial_check_ct as int,
                delta_check_ct as int,
            ),
        decreases r - i,
    {
        proof {
            assert(dv.minimizer_sa[i as int] == to_ints(data.minimizer_sa@)[i as int]);
        }
        let sa_e = data.minimizer_sa[i];
        proof {
            assert(dv.minimizer_sequence[sa_e as int] == to_ints(
                data.minimizer_sequence@,
            )[sa_e as int]);
        }
        let p = data.minimizer_sequence[sa_e];
        let ghost pp = p as int;
        let keep: bool;
        if p < qpos0 || p + (qlen - qpos0 - 1) >= ref_len - k {
            keep = false;
            proof {
                assert(!boundary_ok(dv, qv, qposv[0], pp));
            }
        } else {
            // delta filter
            let mut dok = true;
            let mut j: usize = 0;
            while dok && j < delta_check_ct && j + 1 < qpos_len
                invariant
                    dv == data@,
                    qposv == to_ints(query_minimizer_indices@),
                    qpos_len == qposv.len(),
                    m == dv.minimizer_sequence.len(),
                    sa_e < m,
                    j <= delta_check_ct,
                    j + 1 <= qpos_len,
                    dok ==> delta_prefix_ok(dv, qposv, sa_e as int, j as int),
                    !dok ==> !delta_ok(dv, qposv, sa_e as int, delta_check_ct as int),
                decreases (if dok {
                    delta_check_ct - j + 1
                } else {
                    0
                }),
            {
                if j >= m - 1 - sa_e {
                    proof {
                        assert(sa_e + j + 1 >= m);
                        assert(!delta_step_ok(dv, qposv, sa_e as int, j as int));
                        assert(!delta_ok(dv, qposv, sa_e as int, delta_check_ct as int));
                    }
                    dok = false;
                } else {
                    proof {
                        assert(dv.minimizer_sequence[sa_e + j] == to_ints(
                            data.minimizer_sequence@,
                        )[sa_e + j]);
                        assert(dv.minimizer_sequence[sa_e + j + 1] == to_ints(
                            data.minimizer_sequence@,
                        )[sa_e + j + 1]);
                        assert(qposv[j as int] == to_ints(query_minimizer_indices@)[j as int]);
                        assert(qposv[j + 1] == to_ints(query_minimizer_indices@)[j + 1]);
                    }
                    let cur = data.minimizer_sequence[sa_e + j];
                    let nxt = data.minimizer_sequence[sa_e + j + 1];
                    let qa = query_minimizer_indices[j];
                    let qb = query_minimizer_indices[j + 1];
                    if (nxt as u128) + (qa as u128) != (qb as u128) + (cur as u128) {
                        proof {
                            assert(!delta_step_ok(dv, qposv, sa_e as int, j as int));
                            assert(!delta_ok(dv, qposv, sa_e as int, delta_check_ct as int));
                        }
                        dok = false;
                    } else {
                        proof {
                            assert(delta_step_ok(dv, qposv, sa_e as int, j as int));
                            assert forall|x: int| 0 <= x < j + 1 implies #[trigger] delta_step_ok(
                                dv,
                                qposv,
                                sa_e as int,
                                x,
                            ) by {
                                if x < j {
                                    assert(delta_prefix_ok(dv, qposv, sa_e as int, j as int));
                                }
                            }
                        }
                        j = j + 1;
                    }
                }
            }
            if !dok {
                keep = false;
            } else {
                proof {
                    lemma_delta_prefix_to_ok(
                        dv,
                        qposv,
                        sa_e as int,
                        j as int,
                        delta_check_ct as int,
                    );
                }
                // partial base-space verification
                let aligned = p - qpos0;
                let ghost limit = partial_check_ct as int;
                let mut pok = true;
                let mut ii: usize = 0;
                let mut c: usize = 0;
                proof {
                    assert(aligned + qlen <= ref_len);
                }
                while pok && ii < qlen && c < partial_check_ct
                    invariant
                        dv == data@,
                        qv == original_query_sequence@,
                        qposv == to_ints(query_minimizer_indices@),
                        k == data.minimizer_k,
                        qlen == qv.len(),
                        ref_len == dv.reference.len(),
                        aligned + qlen <= ref_len,
                        aligned == pp - qposv[0],
                        limit == partial_check_ct as int,
                        ii <= qlen,
                        c <= partial_check_ct,
                        pok ==> partial_ok_from(
                            dv.reference,
                            qv,
                            qposv,
                            k as int,
                            aligned as int,
                            0,
                            0,
                            limit,
                        ) == partial_ok_from(
                            dv.reference,
                            qv,
                            qposv,
                            k as int,
                            aligned as int,
                            ii as int,
                            c as int,
                            limit,
                        ),
                        !pok ==> !partial_ok_from(
                            dv.reference,
                            qv,
                            qposv,
                            k as int,
                            aligned as int,
                            0,
                            0,
                            limit,
                        ),
                    decreases (if pok {
                        qlen - ii + 1
                    } else {
                        0
                    }),
                {
                    let cov = position_covered(&query_minimizer_indices, ii, k);
                    if cov {
                        ii = ii + 1;
                    } else {
                        proof {
                            assert(qv[ii as int] == original_query_sequence@[ii as int]);
                        }
                        if original_query_sequence[ii] != data.reference[aligned + ii] {
                            pok = false;
                        } else {
                            c = c + 1;
                            ii = ii + 1;
                        }
                    }
                }
                keep = pok;
                proof {
                    if pok {
                        assert(partial_ok(dv, qv, qposv, pp, limit));
                    } else {
                        assert(!partial_ok(dv, qv, qposv, pp, limit));
                    }
                }
            }
        }
        proof {
            assert(keep == candidate_kept(
                dv,
                qv,
                qposv,
                i as int,
                partial_check_ct as int,
                delta_check_ct as int,
            ));
        }
        if keep {
            let ghost old_matches = matches@;
            matches.push(p - qpos0);
            proof {
                assert(to_ints(matches@) =~= to_ints(old_matches).push(pp - qposv[0]));
                assert(to_ints(old_matches) + (seq![pp - qposv[0]] + matches_in(
                    dv,
                    qv,
                    qposv,
                    i as int + 1,
                    r as int,
                    partial_check_ct as int,
                    delta_check_ct as int,
                )) =~= to_ints(old_matches).push(pp - qposv[0]) + matches_in(
                    dv,
                    qv,
                    qposv,
                    i as int + 1,
                    r as int,
                    partial_check_ct as int,
                    delta_check_ct as int,
                ));
            }
        }
        i = i + 1;
    }
    proof {
        assert(to_ints(matches@) + Seq::<int>::empty() =~= to_ints(matches@));
        assert(to_ints(matches@) == matches_in(
            dv,
            qv,
            qposv,
            l as int,
            r as int,
            partial_check_ct as int,
            delta_check_ct as int,
        ));
    }
    matches
}

/// Answers one query in full-verification mode: brackets the query's
/// suffix-array interval, keeps the candidates that pass the boundary
/// filter, and emits only the aligned starts where the whole query
/// matches the reference byte for byte.
pub fn process_query_full(data: &MinimizerStringData, original_query_sequence: &Vec<u8>) -> (
    matches: Vec<usize>)
    requires
        data@.wf(),
        original_query_sequence@.len() + data@.minimizer_k <= usize::MAX,
        data@.reference.len() + original_query_sequence@.len() <= usize::MAX,
    ensures
        to_ints(matches@) == query_matches_full(data@, original_query_sequence@),
        forall|t: int|
            0 <= t < matches@.len() ==> occurs_at(
                data@.reference,
                original_query_sequence@,
                #[trigger] matches@[t] as int,
            ),
{
    let ghost dv = data@;
    let ghost qv = original_query_sequence@;
    let k = data.minimizer_k;
    let w = data.window_w;
    let qlen = original_query_sequence.len();
    let ref_len = data.reference.len();
    let mut matches: Vec<usize> = Vec::new();
    let mut query_minimizer_indices = crate::minimizers::compute_minimizers(
        original_query_sequence.as_slice(),
        k,
        w,
    );
    let ghost qposv = minimizer_seq(qv, k as int, w as int);
    if query_minimizer_indices.len() == 0 {
        return matches;
    }
    proof {
        lemma_minimizer_seq_bounds(qv, k as int, w as int);
    }
    let lr = find_match_interval(data, original_query_sequence, &mut query_minimizer_indices);
    let l = lr.0;
    let r = lr.1;
    proof {
        assert(to_ints(query_minimizer_indices@) == qposv);
        assert(qposv[0] == minimizer_seq(qv, k as int, w as int)[0]);
        assert(qposv[0] + k <= qv.len());
    }
    let qpos0 = query_minimizer_indices[0];
    let n = data.minimizer_sa.len();
    let mut i = l;
    while i < r
        invariant
            dv == data@,
            qv == original_query_sequence@,
            dv.wf(),
            qposv == minimizer_seq(qv, k as int, w as int),
            1 <= qposv.len(),
            qpos0 == qposv[0],
            qpos0 + k <= qlen,
            k == data.minimizer_k,
            qlen == qv.len(),
            ref_len == dv.reference.len(),
            n == dv.minimizer_sa.len(),
            ref_len + qlen <= usize::MAX,
            l <= i <= r <= n,
            full_matches_in(dv, qv, qposv, l as int, r as int) == to_ints(matches@)
                + full_matches_in(dv, qv, qposv, i as int, r as int),
            forall|t: int|
                0 <= t < matches@.len() ==> occurs_at(
                    dv.reference,
                    qv,
                    #[trigger] matches@[t] as int,
                ),
        decreases r - i,
    {
        proof {
            assert(dv.minimizer_sa[i as int] == to_ints(data.minimizer_sa@)[i as int]);
        }
        let sa_e = data.minimizer_sa[i];
        proof {
            assert(dv.minimizer_sequence[sa_e as int] == to_ints(
                data.minimizer_sequence@,
            )[sa_e as int]);
        }
        let p = data.minimizer_sequence[sa_e];
        let ghost pp = p as int;
        let keep: bool;
        if p < qpos0 || p + (qlen - qpos0 - 1) >= ref_len - k {
            keep = false;
            proof {
                assert(!boundary_ok(dv, qv, qposv[0], pp));
            }
        } else {
            let aligned = p - qpos0;
            proof {
                assert(aligned + qlen <= ref_len);
            }
            let mut eq = true;
            let mut x: usize = 0;
            while eq && x < qlen
                invariant
                    dv == data@,
                    qv == original_query_sequence@,
                    qlen == qv.len(),
                    ref_len == dv.reference.len(),
                    aligned + qlen <= ref_len,
                    x <= qlen,
                    eq ==> forall|y: int|
                        0 <= y < x ==> qv[y] == dv.reference[aligned + y],
                    !eq ==> dv.reference.subrange(aligned as int, aligned + qlen) != qv,
                decreases (if eq {
                    qlen - x + 1
                } else {
                    0
                }),
            {
                if original_query_sequence[x] != data.reference[aligned + x] {
                    proof {
                        assert(dv.reference.subrange(aligned as int, aligned + qlen)[x as int]
                            != qv[x as int]);
                    }
                    eq = false;
                } else {
                    x = x + 1;
                }
            }
            keep = eq;
            proof {
                if eq {
                    assert(dv.reference.subrange(aligned as int, aligned + qlen) =~= qv);
                    assert(occurs_at(dv.reference, qv, pp - qposv[0]));
                } else {
                    assert(!occurs_at(dv.reference, qv, pp - qposv[0]));
                }
            }
        }
        proof {
            assert(keep == full_kept(dv, qv, qposv, i as int));
        }
        if keep {
            let ghost old_matches = matches@;
            matches.push(p - qpos0);
            proof {
                assert(to_ints(matches@) =~= to_ints(old_matches).push(pp - qposv[0]));
                assert(to_ints(old_matches) + (seq![pp - qposv[0]] + full_matches_in(
                    dv,
                    qv,
                    qposv,
                    i as int + 1,
                    r as int,
                )) =~= to_ints(old_matches).push(pp - qposv[0]) + full_matches_in(
                    dv,
                    qv,
                    qposv,
                    i as int + 1,
                    r as int,
                ));
            }
        }
        i = i + 1;
    }
    proof {
        assert(to_ints(matches@) + Seq::<int>::empty() =~= to_ints(matches@));
        assert(to_ints(matches@) == full_matches_in(dv, qv, qposv, l as int, r as int));
    }
    matches
}

} // verus!
