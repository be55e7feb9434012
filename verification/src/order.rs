//! Lexicographic three-way comparison of byte strings and of the k-mers that
//! the minimizer machinery extracts from them.
//!
//! A k-mer is read from a backing string at a position; when fewer than `k`
//! bytes remain, the k-mer is clipped at the end of the string. All ordering
//! in this crate bottoms out in [`bytes_cmp`], the usual lexicographic order
//! on finite byte sequences.

use vstd::prelude::*;

verus! {

use core::cmp::Ordering;

/// The k-mer of `s` anchored at position `p`: the bytes `s[p..p+k]`, clipped
/// at the end of `s` when fewer than `k` bytes remain.
pub open spec fn kmer_at(s: Seq<u8>, p: int, k: int) -> Seq<u8>
    recommends
        0 <= p <= s.len(),
        0 <= k,
{
    s.subrange(p, if p + k <= s.len() { p + k } else { s.len() as int })
}

/// Lexicographic three-way comparison of byte sequences, with the prefix
/// rule: a proper prefix is less than the longer sequence.
pub open spec fn bytes_cmp(a: Seq<u8>, b: Seq<u8>) -> Ordering
    decreases a.len(),
{
    if a.len() == 0 && b.len() == 0 {
        Ordering::Equal
    } else if a.len() == 0 {
        Ordering::Less
    } else if b.len() == 0 {
        Ordering::Greater
    } else if a[0] < b[0] {
        Ordering::Less
    } else if a[0] > b[0] {
        Ordering::Greater
    } else {
        bytes_cmp(a.drop_first(), b.drop_first())
    }
}

/// The opposite ordering: comparing the same operands the other way round.
pub open spec fn opposite(o: Ordering) -> Ordering {
    if o == Ordering::Less {
        Ordering::Greater
    } else if o == Ordering::Greater {
        Ordering::Less
    } else {
        Ordering::Equal
    }
}

/// Comparing a sequence with itself gives `Equal`.
pub proof fn lemma_bytes_cmp_refl(a: Seq<u8>)
    ensures
        bytes_cmp(a, a) == Ordering::Equal,
    decreases a.len(),
{
    if a.len() > 0 {
        lemma_bytes_cmp_refl(a.drop_first());
    }
}

/// Swapping the operands gives the opposite ordering.
pub proof fn lemma_bytes_cmp_opposite(a: Seq<u8>, b: Seq<u8>)
    ensures
        bytes_cmp(b, a) == opposite(bytes_cmp(a, b)),
    decreases a.len(),
{
    if a.len() > 0 && b.len() > 0 && a[0] == b[0] {
        lemma_bytes_cmp_opposite(a.drop_first(), b.drop_first());
    }
}

/// `Equal` means the sequences are the same.
pub proof fn lemma_bytes_cmp_eq(a: Seq<u8>, b: Seq<u8>)
    requires
        bytes_cmp(a, b) == Ordering::Equal,
    ensures
        a == b,
    decreases a.len(),
{
    if a.len() == 0 && b.len() == 0 {
        assert(a =~= b);
    } else if a.len() > 0 && b.len() > 0 && a[0] == b[0] {
        lemma_bytes_cmp_eq(a.drop_first(), b.drop_first());
        assert forall|i: int| 0 <= i < a.len() implies a[i] == b[i] by {
            if i > 0 {
                assert(a[i] == a.drop_first()[i - 1]);
                assert(b[i] == b.drop_first()[i - 1]);
            }
        }
        assert(a =~= b);
    }
}

/// Strict transitivity of the lexicographic order.
pub proof fn lemma_bytes_cmp_trans(a: Seq<u8>, b: Seq<u8>, c: Seq<u8>)
    requires
        bytes_cmp(a, b) == Ordering::Less,
        bytes_cmp(b, c) == Ordering::Less,
    ensures
        bytes_cmp(a, c) == Ordering::Less,
    decreases a.len(),
{
    if a.len() > 0 && b.len() > 0 && c.len() > 0 && a[0] == b[0] && b[0] == c[0] {
        lemma_bytes_cmp_trans(a.drop_first(), b.drop_first(), c.drop_first());
    }
}

/// Transitivity over the non-strict order `!= Greater`, in the forms the
/// sorting and searching code needs.
pub proof fn lemma_bytes_cmp_le_trans(a: Seq<u8>, b: Seq<u8>, c: Seq<u8>)
    requires
        bytes_cmp(a, b) != Ordering::Greater,
        bytes_cmp(b, c) != Ordering::Greater,
    ensures
        bytes_cmp(a, c) != Ordering::Greater,
        bytes_cmp(a, b) == Ordering::Less || bytes_cmp(b, c) == Ordering::Less ==> bytes_cmp(
            a,
            c,
        ) == Ordering::Less,
{
    if bytes_cmp(a, b) == Ordering::Equal {
        lemma_bytes_cmp_eq(a, b);
    } else if bytes_cmp(b, c) == Ordering::Equal {
        lemma_bytes_cmp_eq(b, c);
    } else {
        lemma_bytes_cmp_trans(a, b, c);
    }
}

/// The mirror image of [`lemma_bytes_cmp_le_trans`], over `!= Less`.
pub proof fn lemma_bytes_cmp_ge_trans(a: Seq<u8>, b: Seq<u8>, c: Seq<u8>)
    requires
        bytes_cmp(a, b) != Ordering::Less,
        bytes_cmp(b, c) != Ordering::Less,
    ensures
        bytes_cmp(a, c) != Ordering::Less,
        bytes_cmp(a, b) == Ordering::Greater || bytes_cmp(b, c) == Ordering::Greater ==> bytes_cmp(
            a,
            c,
        ) == Ordering::Greater,
{
    lemma_bytes_cmp_opposite(a, b);
    lemma_bytes_cmp_opposite(b, c);
    lemma_bytes_cmp_opposite(a, c);
    lemma_bytes_cmp_le_trans(c, b, a);
}

/// Compares the k-mer of `s1` anchored at `p1` with the k-mer of `s2`
/// anchored at `p2`, byte by byte.
pub fn kmer_compare(s1: &[u8], p1: usize, s2: &[u8], p2: usize, k: usize) -> (r: Ordering)
    requires
        p1 <= s1@.len(),
        p2 <= s2@.len(),
    ensures
        r == bytes_cmp(kmer_at(s1@, p1 as int, k as int), kmer_at(s2@, p2 as int, k as int)),
{
    let n1 = s1.len();
    let n2 = s2.len();
    let e1 = if k <= n1 - p1 {
        p1 + k
    } else {
        n1
    };
    let e2 = if k <= n2 - p2 {
        p2 + k
    } else {
        n2
    };
    let ghost ka = kmer_at(s1@, p1 as int, k as int);
    let ghost kb = kmer_at(s2@, p2 as int, k as int);
    let mut i1 = p1;
    let mut i2 = p2;
    proof {
        assert(ka.skip(0) =~= ka);
        assert(kb.skip(0) =~= kb);
    }
    while i1 < e1 && i2 < e2
        invariant
            p1 <= i1 <= e1 <= s1@.len(),
            p2 <= i2 <= e2 <= s2@.len(),
            i1 - p1 == i2 - p2,
            ka == kmer_at(s1@, p1 as int, k as int),
            kb == kmer_at(s2@, p2 as int, k as int),
            ka.len() == e1 - p1,
            kb.len() == e2 - p2,
            bytes_cmp(ka, kb) == bytes_cmp(ka.skip(i1 - p1), kb.skip(i2 - p2)),
        decreases e1 - i1,
    {
        let c1 = s1[i1];
        let c2 = s2[i2];
        proof {
            let o = i1 - p1;
            assert(ka.skip(o)[0] == ka[o]);
            assert(kb.skip(o)[0] == kb[o]);
            assert(ka.skip(o).drop_first() =~= ka.skip(o + 1));
            assert(kb.skip(o).drop_first() =~= kb.skip(o + 1));
        }
        if c1 < c2 {
            return Ordering::Less;
        }
        if c1 > c2 {
            return Ordering::Greater;
        }
        i1 = i1 + 1;
        i2 = i2 + 1;
    }
    proof {
        let o = i1 - p1;
        assert(ka.skip(o).len() == ka.len() - o);
        assert(kb.skip(o).len() == kb.len() - o);
    }
    if i1 < e1 {
        Ordering::Greater
    } else if i2 < e2 {
        Ordering::Less
    } else {
        Ordering::Equal
    }
}

} // verus!
