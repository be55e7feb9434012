//! The symbolic comparator: a total order on minimizer suffixes.
//!
//! A minimizer suffix is a sequence of anchor positions; each position names
//! the k-mer of its backing string that starts there. Two suffixes are
//! ordered lexicographically over those k-mers, with the prefix rule. The
//! comparator never materialises the projected k-mer string: every element
//! comparison looks the two k-mers up in the backing strings.

use vstd::prelude::*;

verus! {

use core::cmp::Ordering;
use crate::order::{
    bytes_cmp,
    kmer_at,
    kmer_compare,
    lemma_bytes_cmp_eq,
    lemma_bytes_cmp_opposite,
    lemma_bytes_cmp_trans,
    opposite,
};
use crate::to_ints;

/// Every position in `ps` stays inside `s`, so a k-mer can be read there.
pub open spec fn positions_in(ps: Seq<int>, s: Seq<u8>) -> bool {
    forall|i: int| 0 <= i < ps.len() ==> 0 <= #[trigger] ps[i] <= s.len()
}

/// Three-way comparison of two minimizer suffixes. `a` and `b` hold anchor
/// positions into the backing strings `s1` and `s2`; the suffixes compare as
/// the sequences of k-mers those positions name.
pub open spec fn msuffix_cmp(s1: Seq<u8>, a: Seq<int>, s2: Seq<u8>, b: Seq<int>, k: int) -> Ordering
    decreases a.len(),
{
    if a.len() == 0 && b.len() == 0 {
        Ordering::Equal
    } else if a.len() == 0 {
        Ordering::Less
    } else if b.len() == 0 {
        Ordering::Greater
    } else {
        let c = bytes_cmp(kmer_at(s1, a[0], k), kmer_at(s2, b[0], k));
        if c == Ordering::Equal {
            msuffix_cmp(s1, a.drop_first(), s2, b.drop_first(), k)
        } else {
            c
        }
    }
}

/// The non-strict order on minimizer suffixes.
pub open spec fn msuffix_le(s1: Seq<u8>, a: Seq<int>, s2: Seq<u8>, b: Seq<int>, k: int) -> bool {
    msuffix_cmp(s1, a, s2, b, k) != Ordering::Greater
}

/// Swapping the operands gives the opposite ordering; in particular the
/// order is total.
pub proof fn lemma_msuffix_cmp_opposite(
    s1: Seq<u8>,
    a: Seq<int>,
    s2: Seq<u8>,
    b: Seq<int>,
    k: int,
)
    ensures
        msuffix_cmp(s2, b, s1, a, k) == opposite(msuffix_cmp(s1, a, s2, b, k)),
    decreases a.len(),
{
    if a.len() > 0 && b.len() > 0 {
        lemma_bytes_cmp_opposite(kmer_at(s1, a[0], k), kmer_at(s2, b[0], k));
        if bytes_cmp(kmer_at(s1, a[0], k), kmer_at(s2, b[0], k)) == Ordering::Equal {
            lemma_msuffix_cmp_opposite(s1, a.drop_first(), s2, b.drop_first(), k);
        }
    }
}

/// Transitivity of the suffix order, in the non-strict form with its strict
/// refinement: a strict step anywhere in the chain keeps the end strict.
pub proof fn lemma_msuffix_cmp_trans(
    s1: Seq<u8>,
    a: Seq<int>,
    s2: Seq<u8>,
    b: Seq<int>,
    s3: Seq<u8>,
    c: Seq<int>,
    k: int,
)
    requires
        msuffix_cmp(s1, a, s2, b, k) != Ordering::Greater,
        msuffix_cmp(s2, b, s3, c, k) != Ordering::Greater,
    ensures
        msuffix_cmp(s1, a, s3, c, k) != Ordering::Greater,
        msuffix_cmp(s1, a, s2, b, k) == Ordering::Less || msuffix_cmp(s2, b, s3, c, k)
            == Ordering::Less ==> msuffix_cmp(s1, a, s3, c, k) == Ordering::Less,
    decreases a.len() + b.len() + c.len(),
{
    if a.len() == 0 {
        // a is the empty suffix, the least of all: the comparison with c can
        // only be Less or Equal, and it is Equal only when c is empty too,
        // which forces b empty and both chain steps Equal.
    } else if b.len() == 0 || c.len() == 0 {
        // then msuffix_cmp(s1, a, s2, b, k) or msuffix_cmp(s2, b, s3, c, k)
        // is Greater, contradicting the requires
    } else {
        let ka = kmer_at(s1, a[0], k);
        let kb = kmer_at(s2, b[0], k);
        let kc = kmer_at(s3, c[0], k);
        let cab = bytes_cmp(ka, kb);
        let cbc = bytes_cmp(kb, kc);
        if cab == Ordering::Equal && cbc == Ordering::Equal {
            lemma_bytes_cmp_eq(ka, kb);
            lemma_bytes_cmp_eq(kb, kc);
            assert(bytes_cmp(ka, kc) == Ordering::Equal);
            lemma_msuffix_cmp_trans(s1, a.drop_first(), s2, b.drop_first(), s3, c.drop_first(), k);
        } else if cab == Ordering::Equal {
            lemma_bytes_cmp_eq(ka, kb);
            assert(bytes_cmp(ka, kc) == cbc);
        } else if cbc == Ordering::Equal {
            lemma_bytes_cmp_eq(kb, kc);
            assert(bytes_cmp(ka, kc) == cab);
        } else if cab == Ordering::Less && cbc == Ordering::Less {
            lemma_bytes_cmp_trans(ka, kb, kc);
        }
    }
}

/// Walks two minimizer suffixes in lockstep, comparing the k-mers their
/// positions name in the two backing strings, and returns the first
/// difference; a suffix that runs out first is the smaller one.
///
/// `start_idx1` and `start_idx2` select where each suffix begins inside its
/// position list; `None` means the beginning.
pub fn compare_minimizer_sequences(
    start_idx1: Option<usize>,
    start_idx2: Option<usize>,
    seq1_indices: &[usize],
    seq2_indices: &[usize],
    original_sequence1: &[u8],
    original_sequence2: &[u8],
    k: usize,
) -> (r: Ordering)
    requires
        positions_in(to_ints(seq1_indices@), original_sequence1@),
        positions_in(to_ints(seq2_indices@), original_sequence2@),
        start_idx1 matches Some(s) ==> s <= seq1_indices@.len(),
        start_idx2 matches Some(s) ==> s <= seq2_indices@.len(),
    ensures
        ({
            let st1: int = match start_idx1 { Some(s) => s as int, None => 0 };
            let st2: int = match start_idx2 { Some(s) => s as int, None => 0 };
            r == msuffix_cmp(
                original_sequence1@,
                to_ints(seq1_indices@).skip(st1),
                original_sequence2@,
                to_ints(seq2_indices@).skip(st2),
                k as int,
            )
        }),
{
    let mut idx1 = if let Some(s) = start_idx1 {
        s
    } else {
        0
    };
    let mut idx2 = if let Some(s) = start_idx2 {
        s
    } else {
        0
    };
    let ghost st1 = idx1 as int;
    let ghost st2 = idx2 as int;
    let ghost aa = to_ints(seq1_indices@);
    let ghost bb = to_ints(seq2_indices@);
    let n1 = seq1_indices.len();
    let n2 = seq2_indices.len();
    while idx1 < n1 && idx2 < n2
        invariant
            st1 == (match start_idx1 {
                Some(s) => s as int,
                None => 0,
            }),
            st2 == (match start_idx2 {
                Some(s) => s as int,
                None => 0,
            }),
            st1 <= idx1 <= n1 == seq1_indices@.len(),
            st2 <= idx2 <= n2 == seq2_indices@.len(),
            aa == to_ints(seq1_indices@),
            bb == to_ints(seq2_indices@),
            positions_in(aa, original_sequence1@),
            positions_in(bb, original_sequence2@),
            msuffix_cmp(original_sequence1@, aa.skip(st1), original_sequence2@, bb.skip(st2), k as int)
                == msuffix_cmp(
                original_sequence1@,
                aa.skip(idx1 as int),
                original_sequence2@,
                bb.skip(idx2 as int),
                k as int,
            ),
        decreases n1 - idx1,
    {
        let pos1 = seq1_indices[idx1];
        let pos2 = seq2_indices[idx2];
        proof {
            assert(aa.skip(idx1 as int)[0] == aa[idx1 as int]);
            assert(bb.skip(idx2 as int)[0] == bb[idx2 as int]);
        }
        let c = kmer_compare(original_sequence1, pos1, original_sequence2, pos2, k);
        match c {
            Ordering::Equal => {
                proof {
                    assert(aa.skip(idx1 as int).drop_first() =~= aa.skip(idx1 as int + 1));
                    assert(bb.skip(idx2 as int).drop_first() =~= bb.skip(idx2 as int + 1));
                }
                idx1 = idx1 + 1;
                idx2 = idx2 + 1;
            },
            _ => {
                proof {
                    assert(msuffix_cmp(
                        original_sequence1@,
                        aa.skip(idx1 as int),
                        original_sequence2@,
                        bb.skip(idx2 as int),
                        k as int,
                    ) == c);
                }
                return c;
            },
        }
    }
    proof {
        assert(aa.skip(idx1 as int).len() == n1 - idx1);
        assert(bb.skip(idx2 as int).len() == n2 - idx2);
    }
    if idx1 < n1 {
        Ordering::Greater
    } else if idx2 < n2 {
        Ordering::Less
    } else {
        Ordering::Equal
    }
}

} // verus!
