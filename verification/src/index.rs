//! The index artifact: the extended reference, its minimizer sequence, the
//! suffix array over that sequence, and the two minimizer parameters.
//!
//! The suffix array is a permutation of the minimizer-sequence indices,
//! sorted under the symbolic comparator: entry `a` before entry `b` means
//! the minimizer suffix starting at `sa[a]` is no greater than the one
//! starting at `sa[b]`.

use vstd::prelude::*;

verus! {

use core::cmp::Ordering;
use vstd::set_lib::{lemma_int_range, lemma_len_subset, lemma_subset_equality, set_int_range};
use crate::compare::{
    compare_minimizer_sequences,
    lemma_msuffix_cmp_opposite,
    lemma_msuffix_cmp_trans,
    msuffix_cmp,
    msuffix_le,
    positions_in,
};
use crate::minimizers::{compute_minimizers, minimizer_seq};
use crate::to_ints;

/// The persistable index: reference text, minimizer anchor positions,
/// suffix array over the minimizer sequence, and the parameters `k` and `w`
/// it was built with.
pub struct MinimizerStringData {
    /// The reference string the anchors point into, including the terminal
    /// run appended at build time.
    pub reference: Vec<u8>,
    /// Anchor positions of the minimizer sequence, in window order.
    pub minimizer_sequence: Vec<usize>,
    /// Suffix array: a sorted permutation of the minimizer-sequence indices.
    pub minimizer_sa: Vec<usize>,
    /// The k-mer length.
    pub minimizer_k: usize,
    /// The window length.
    pub window_w: usize,
}

/// The mathematical content of an index.
#[verifier::ext_equal]
pub struct IndexView {
    /// The reference string as a byte sequence.
    pub reference: Seq<u8>,
    /// The minimizer anchor positions.
    pub minimizer_sequence: Seq<int>,
    /// The suffix array entries.
    pub minimizer_sa: Seq<int>,
    /// The k-mer length.
    pub minimizer_k: int,
    /// The window length.
    pub window_w: int,
}

impl View for MinimizerStringData {
    type V = IndexView;

    open spec fn view(&self) -> IndexView {
        IndexView {
            reference: self.reference@,
            minimizer_sequence: to_ints(self.minimizer_sequence@),
            minimizer_sa: to_ints(self.minimizer_sa@),
            minimizer_k: self.minimizer_k as int,
            window_w: self.window_w as int,
        }
    }
}

/// Suffix `t` of the minimizer sequence `ms`: the positions from list index
/// `t` on.
pub open spec fn msuffix(ms: Seq<int>, t: int) -> Seq<int>
    recommends
        0 <= t <= ms.len(),
{
    ms.skip(t)
}

/// The suffix array `sa` is sorted: along it, minimizer suffixes of `ms`
/// never decrease under the symbolic comparator over `reference`.
pub open spec fn sa_sorted(reference: Seq<u8>, ms: Seq<int>, sa: Seq<int>, k: int) -> bool {
    forall|a: int, b: int|
        0 <= a < b < sa.len() ==> msuffix_le(
            reference,
            msuffix(ms, #[trigger] sa[a]),
            reference,
            msuffix(ms, #[trigger] sa[b]),
            k,
        )
}

impl IndexView {
    /// Everything the query engine relies on: parameter sanity, matching
    /// lengths, in-bounds anchors, and a suffix array that is an injective,
    /// in-range, sorted list of minimizer-sequence indices.
    pub open spec fn wf(self) -> bool {
        &&& 1 <= self.minimizer_k <= self.window_w
        &&& self.minimizer_k <= self.reference.len()
        &&& self.minimizer_sa.len() == self.minimizer_sequence.len()
        &&& forall|t: int|
            0 <= t < self.minimizer_sequence.len() ==> 0 <= #[trigger] self.minimizer_sequence[t]
                && self.minimizer_sequence[t] + self.minimizer_k <= self.reference.len()
        &&& forall|t: int|
            0 <= t < self.minimizer_sa.len() ==> 0 <= #[trigger] self.minimizer_sa[t]
                < self.minimizer_sa.len()
        &&& forall|a: int, b: int|
            0 <= a < b < self.minimizer_sa.len() ==> #[trigger] self.minimizer_sa[a]
                != #[trigger] self.minimizer_sa[b]
        &&& sa_sorted(self.reference, self.minimizer_sequence, self.minimizer_sa, self.minimizer_k)
    }
}

/// Sorts the indices of the minimizer sequence into a suffix array: the
/// result is an injective, in-range permutation of `[0, m)` along which the
/// minimizer suffixes never decrease under the symbolic comparator.
pub fn build_minimizer_sa(
    minimizer_sequence: &Vec<usize>,
    reference: &Vec<u8>,
    k: usize,
) -> (sa: Vec<usize>)
    requires
        positions_in(to_ints(minimizer_sequence@), reference@),
    ensures
        sa@.len() == minimizer_sequence@.len(),
        forall|t: int| 0 <= t < sa@.len() ==> 0 <= #[trigger] sa@[t] < sa@.len(),
        forall|a: int, b: int| 0 <= a < b < sa@.len() ==> sa@[a] != sa@[b],
        sa_sorted(reference@, to_ints(minimizer_sequence@), to_ints(sa@), k as int),
{
    let ghost ms = to_ints(minimizer_sequence@);
    let ghost rv = reference@;
    let n = minimizer_sequence.len();
    let mut sa: Vec<usize> = Vec::new();
    let mut t: usize = 0;
    while t < n
        invariant
            t <= n,
            sa@.len() == t,
            forall|x: int| 0 <= x < t ==> #[trigger] sa@[x] == x,
        decreases n - t,
    {
        sa.push(t);
        t = t + 1;
    }
    let mut i: usize = 1;
    while i < n
        invariant
            n == minimizer_sequence@.len(),
            ms == to_ints(minimizer_sequence@),
            rv == reference@,
            positions_in(ms, rv),
            1 <= i,
            i <= n || i == 1,
            sa@.len() == n,
            forall|x: int| 0 <= x < n ==> 0 <= #[trigger] sa@[x] < n,
            forall|a: int, b: int| 0 <= a < b < n ==> sa@[a] != sa@[b],
            forall|a: int, b: int|
                0 <= a < b < i ==> msuffix_le(
                    rv,
                    msuffix(ms, #[trigger] sa@[a] as int),
                    rv,
                    msuffix(ms, #[trigger] sa@[b] as int),
                    k as int,
                ),
        decreases n - i,
    {
        let mut j: usize = i;
        let mut moving = true;
        while moving && j > 0
            invariant
                n == minimizer_sequence@.len(),
                ms == to_ints(minimizer_sequence@),
                rv == reference@,
                positions_in(ms, rv),
                1 <= i < n,
                0 <= j <= i,
                sa@.len() == n,
                forall|x: int| 0 <= x < n ==> 0 <= #[trigger] sa@[x] < n,
                forall|a: int, b: int| 0 <= a < b < n ==> sa@[a] != sa@[b],
                forall|a: int, b: int|
                    0 <= a < b <= i && b != j ==> msuffix_le(
                        rv,
                        msuffix(ms, #[trigger] sa@[a] as int),
                        rv,
                        msuffix(ms, #[trigger] sa@[b] as int),
                        k as int,
                    ),
                !moving ==> forall|a: int, b: int|
                    0 <= a < b <= i ==> msuffix_le(
                        rv,
                        msuffix(ms, #[trigger] sa@[a] as int),
                        rv,
                        msuffix(ms, #[trigger] sa@[b] as int),
                        k as int,
                    ),
            decreases (if moving {
                j + 1
            } else {
                0
            }),
        {
            let prev = sa[j - 1];
            let curr = sa[j];
            let c = compare_minimizer_sequences(
                Some(prev),
                Some(curr),
                minimizer_sequence.as_slice(),
                minimizer_sequence.as_slice(),
                reference.as_slice(),
                reference.as_slice(),
                k,
            );
            if matches!(c, Ordering::Greater) {
                let ghost old_sa = sa@;
                sa.set(j - 1, curr);
                sa.set(j, prev);
                proof {
                    lemma_msuffix_cmp_opposite(
                        rv,
                        msuffix(ms, prev as int),
                        rv,
                        msuffix(ms, curr as int),
                        k as int,
                    );
                    assert forall|a: int, b: int|
                        0 <= a < b <= i && b != j - 1 implies msuffix_le(
                        rv,
                        msuffix(ms, #[trigger] sa@[a] as int),
                        rv,
                        msuffix(ms, #[trigger] sa@[b] as int),
                        k as int,
                    ) by {
                        if a == j - 1 {
                            // the entry now at j - 1 came from j
                            assert(sa@[a] == old_sa[j as int]);
                        } else if a == j {
                            assert(sa@[a] == old_sa[j - 1]);
                        }
                        if b == j {
                            assert(sa@[b] == old_sa[j - 1]);
                        } else if b != j - 1 {
                            assert(sa@[b] == old_sa[b]);
                        }
                    }
                    assert forall|a: int, b: int| 0 <= a < b < n implies sa@[a] != sa@[b] by {
                        let va = if a == j - 1 {
                            old_sa[j as int]
                        } else if a == j {
                            old_sa[j - 1]
                        } else {
                            old_sa[a]
                        };
                        assert(sa@[a] == va);
                    }
                }
                j = j - 1;
            } else {
                moving = false;
                proof {
                    assert forall|a: int, b: int| 0 <= a < b <= i implies msuffix_le(
                        rv,
                        msuffix(ms, #[trigger] sa@[a] as int),
                        rv,
                        msuffix(ms, #[trigger] sa@[b] as int),
                        k as int,
                    ) by {
                        if b == j {
                            if a < j - 1 {
                                lemma_msuffix_cmp_trans(
                                    rv,
                                    msuffix(ms, sa@[a] as int),
                                    rv,
                                    msuffix(ms, sa@[j - 1] as int),
                                    rv,
                                    msuffix(ms, sa@[b] as int),
                                    k as int,
                                );
                            }
                        }
                    }
                }
            }
        }
        i = i + 1;
    }
    sa
}

/// The terminal anchor's text: `k` copies of the `$` byte, lexicographically
/// below every upper-case base, appended to the reference at build time.
pub open spec fn terminal_run(k: int) -> Seq<u8> {
    Seq::new(k as nat, |x: int| 36u8)
}

/// Builds the index for `reference` under parameters `minimizer_k` and
/// `window_w`: extends the reference with the terminal run, appends the
/// terminal anchor to the minimizer sequence, and sorts the suffix array.
pub fn build_index(reference: Vec<u8>, minimizer_k: usize, window_w: usize) -> (d:
    MinimizerStringData)
    requires
        1 <= minimizer_k <= window_w <= reference@.len(),
        reference@.len() + minimizer_k <= usize::MAX,
    ensures
        d@.wf(),
        d@.reference == reference@ + terminal_run(minimizer_k as int),
        d@.minimizer_sequence == minimizer_seq(reference@, minimizer_k as int, window_w as int)
            + seq![reference@.len() as int],
        d@.minimizer_k == minimizer_k as int,
        d@.window_w == window_w as int,
{
    let ghost r0 = reference@;
    let n0 = reference.len();
    let mut ext = reference;
    let mut ms = compute_minimizers(ext.as_slice(), minimizer_k, window_w);
    let ghost ms0 = ms@;
    let mut t: usize = 0;
    while t < minimizer_k
        invariant
            t <= minimizer_k,
            ext@ == r0 + Seq::new(t as nat, |x: int| 36u8),
            r0.len() + minimizer_k <= usize::MAX,
        decreases minimizer_k - t,
    {
        ext.push(36u8);
        proof {
            assert(ext@ =~= r0 + Seq::new((t + 1) as nat, |x: int| 36u8));
        }
        t = t + 1;
    }
    proof {
        assert(ext@ =~= r0 + terminal_run(minimizer_k as int));
    }
    ms.push(n0);
    proof {
        assert(to_ints(ms@) =~= to_ints(ms0).push(n0 as int));
        assert(to_ints(ms@) =~= minimizer_seq(r0, minimizer_k as int, window_w as int) + seq![
            n0 as int,
        ]);
        assert forall|x: int| 0 <= x < ms@.len() implies 0 <= #[trigger] to_ints(ms@)[x]
            && to_ints(ms@)[x] + minimizer_k <= ext@.len() by {
            if x < ms0.len() {
                assert(ms@[x] == ms0[x]);
            }
        }
    }
    let sa = build_minimizer_sa(&ms, &ext, minimizer_k);
    let d = MinimizerStringData {
        reference: ext,
        minimizer_sequence: ms,
        minimizer_sa: sa,
        minimizer_k,
        window_w,
    };
    d
}

/// Chains the adjacent comparisons of a suffix array into sortedness of
/// every pair.
proof fn lemma_le_chain(reference: Seq<u8>, ms: Seq<int>, sa: Seq<int>, k: int, a: int, b: int)
    requires
        0 <= a < b < sa.len(),
        forall|t: int|
            0 <= t < sa.len() - 1 ==> msuffix_le(
                reference,
                msuffix(ms, #[trigger] sa[t]),
                reference,
                msuffix(ms, sa[t + 1]),
                k,
            ),
    ensures
        msuffix_le(reference, msuffix(ms, sa[a]), reference, msuffix(ms, sa[b]), k),
    decreases b - a,
{
    if b > a + 1 {
        lemma_le_chain(reference, ms, sa, k, a, b - 1);
        lemma_msuffix_cmp_trans(
            reference,
            msuffix(ms, sa[a]),
            reference,
            msuffix(ms, sa[b - 1]),
            reference,
            msuffix(ms, sa[b]),
            k,
        );
    }
}

/// Sortedness of a well-formed index, stated pairwise: along the suffix
/// array the symbolic comparison of minimizer suffixes is never `Greater`.
pub proof fn lemma_wf_sa_sorted(dv: IndexView, a: int, b: int)
    requires
        dv.wf(),
        0 <= a < b < dv.minimizer_sa.len(),
    ensures
        msuffix_cmp(
            dv.reference,
            msuffix(dv.minimizer_sequence, dv.minimizer_sa[a]),
            dv.reference,
            msuffix(dv.minimizer_sequence, dv.minimizer_sa[b]),
            dv.minimizer_k,
        ) != Ordering::Greater,
{
}

proof fn lemma_injective_range_complete(sa: Seq<int>)
    requires
        forall|t: int| 0 <= t < sa.len() ==> 0 <= #[trigger] sa[t] < sa.len(),
        forall|a: int, b: int| 0 <= a < b < sa.len() ==> sa[a] != sa[b],
    ensures
        forall|v: int| 0 <= v < sa.len() ==> sa.contains(v),
{
    let n = sa.len() as int;
    assert(sa.no_duplicates());
    sa.unique_seq_to_set();
    let vals = sa.to_set();
    let range = set_int_range(0, n);
    lemma_int_range(0, n);
    assert forall|v: int| vals.contains(v) implies range.contains(v) by {
        let t = choose|t: int| 0 <= t < sa.len() && sa[t] == v;
    }
    lemma_len_subset(vals, range);
    lemma_subset_equality(vals, range);
    assert forall|v: int| 0 <= v < n implies sa.contains(v) by {
        assert(range.contains(v));
        assert(vals.contains(v));
    }
}

/// Decides whether `data` is a well-formed index: parameter sanity, anchor
/// bounds, and a suffix array that is an in-range, injective, sorted
/// permutation of the minimizer-sequence indices. A deserialized index must
/// pass this check before it is queried.
pub fn check_index(data: &MinimizerStringData) -> (ok: bool)
    ensures
        ok == data@.wf(),
{
    let k = data.minimizer_k;
    let w = data.window_w;
    let n_ref = data.reference.len();
    let m = data.minimizer_sequence.len();
    if k < 1 || k > w || k > n_ref {
        return false;
    }
    if data.minimizer_sa.len() != m {
        return false;
    }
    let mut t: usize = 0;
    while t < m
        invariant
            m == data.minimizer_sequence@.len(),
            k == data.minimizer_k,
            n_ref == data.reference@.len(),
            k <= n_ref,
            t <= m,
            forall|x: int|
                0 <= x < t ==> 0 <= #[trigger] data@.minimizer_sequence[x]
                    && data@.minimizer_sequence[x] + k <= n_ref,
        decreases m - t,
    {
        let p = data.minimizer_sequence[t];
        if p > n_ref - k {
            proof {
                assert(data@.minimizer_sequence[t as int] + k > n_ref);
            }
            return false;
        }
        t = t + 1;
    }
    let mut seen: Vec<bool> = vec![false; m];
    let mut t: usize = 0;
    while t < m
        invariant
            m == data.minimizer_sa@.len(),
            seen@.len() == m,
            t <= m,
            forall|x: int| 0 <= x < t ==> 0 <= #[trigger] data@.minimizer_sa[x] < m,
            forall|v: int|
                0 <= v < m ==> (#[trigger] seen@[v] <==> exists|x: int|
                    0 <= x < t && data@.minimizer_sa[x] == v),
            forall|a: int, b: int|
                0 <= a < b < t ==> data@.minimizer_sa[a] != data@.minimizer_sa[b],
        decreases m - t,
    {
        let v = data.minimizer_sa[t];
        if v >= m {
            proof {
                assert(data@.minimizer_sa[t as int] >= m);
            }
            return false;
        }
        if seen[v] {
            proof {
                let x = choose|x: int| 0 <= x < t && data@.minimizer_sa[x] == v as int;
                assert(data@.minimizer_sa[x] == data@.minimizer_sa[t as int]);
            }
            return false;
        }
        seen.set(v, true);
        proof {
            assert forall|u: int| 0 <= u < m implies (#[trigger] seen@[u] <==> exists|x: int|
                0 <= x < t + 1 && data@.minimizer_sa[x] == u) by {
                if u == v as int {
                    assert(data@.minimizer_sa[t as int] == u);
                } else {
                    if exists|x: int| 0 <= x < t + 1 && data@.minimizer_sa[x] == u {
                        let x = choose|x: int| 0 <= x < t + 1 && data@.minimizer_sa[x] == u;
                        assert(x < t);
                    }
                }
            }
        }
        t = t + 1;
    }
    let mut t: usize = 0;
    while m > 0 && t < m - 1
        invariant
            m == data.minimizer_sa@.len(),
            m == data.minimizer_sequence@.len(),
            k == data.minimizer_k,
            n_ref == data.reference@.len(),
            1 <= k <= data.window_w,
            k <= n_ref,
            t <= m,
            forall|x: int|
                0 <= x < m ==> 0 <= #[trigger] data@.minimizer_sequence[x]
                    && data@.minimizer_sequence[x] + k <= n_ref,
            forall|x: int| 0 <= x < m ==> 0 <= #[trigger] data@.minimizer_sa[x] < m,
            forall|x: int|
                0 <= x < t ==> msuffix_le(
                    data@.reference,
                    msuffix(data@.minimizer_sequence, #[trigger] data@.minimizer_sa[x]),
                    data@.reference,
                    msuffix(data@.minimizer_sequence, data@.minimizer_sa[x + 1]),
                    k as int,
                ),
        decreases m - t,
    {
        proof {
            assert forall|x: int| 0 <= x < to_ints(data.minimizer_sequence@).len() implies 0 <= #[trigger] to_ints(
                data.minimizer_sequence@,
            )[x] <= data.reference@.len() by {
                assert(to_ints(data.minimizer_sequence@)[x] == data@.minimizer_sequence[x]);
            }
            assert(positions_in(to_ints(data.minimizer_sequence@), data.reference@));
            assert(data@.minimizer_sa[t as int] < m);
            assert(data@.minimizer_sa[t as int + 1] < m);
        }
        let c = compare_minimizer_sequences(
            Some(data.minimizer_sa[t]),
            Some(data.minimizer_sa[t + 1]),
            data.minimizer_sequence.as_slice(),
            data.minimizer_sequence.as_slice(),
            data.reference.as_slice(),
            data.reference.as_slice(),
            k,
        );
        if matches!(c, Ordering::Greater) {
            proof {
                if data@.wf() {
                    assert(msuffix_le(
                        data@.reference,
                        msuffix(data@.minimizer_sequence, data@.minimizer_sa[t as int]),
                        data@.reference,
                        msuffix(data@.minimizer_sequence, data@.minimizer_sa[t as int + 1]),
                        k as int,
                    ));
                }
            }
            return false;
        }
        t = t + 1;
    }
    proof {
        assert forall|a: int, b: int| 0 <= a < b < m implies msuffix_le(
            data@.reference,
            msuffix(data@.minimizer_sequence, #[trigger] data@.minimizer_sa[a]),
            data@.reference,
            msuffix(data@.minimizer_sequence, #[trigger] data@.minimizer_sa[b]),
            k as int,
        ) by {
            lemma_le_chain(
                data@.reference,
                data@.minimizer_sequence,
                data@.minimizer_sa,
                k as int,
                a,
                b,
            );
        }
    }
    true
}

/// The suffix array of a well-formed index is a permutation of the
/// minimizer-sequence indices: no entry repeats and every index occurs.
pub proof fn lemma_sa_permutation(dv: IndexView)
    requires
        dv.wf(),
    ensures
        dv.minimizer_sa.no_duplicates(),
        forall|v: int| 0 <= v < dv.minimizer_sa.len() ==> dv.minimizer_sa.contains(v),
{
    assert(dv.minimizer_sa.no_duplicates());
    lemma_injective_range_complete(dv.minimizer_sa);
}

} // verus!
