//! A stable binary encoding of the index, with a verified round trip.
//!
//! The layout is fixed and self-describing: every integer is eight bytes
//! little-endian, every list is its length followed by its elements, and
//! the fields come in the order reference, minimizer sequence, suffix
//! array, k, w. Decoding checks every length and every value and accepts
//! exactly the byte strings the encoder produces.

use vstd::prelude::*;

verus! {

use crate::index::{IndexView, MinimizerStringData};
use crate::to_ints;

/// `n` bytes of `v`, little-endian: the low byte first, then the rest of
/// the value.
pub open spec fn enc_u64(v: int, n: int) -> Seq<u8>
    decreases n,
{
    if n <= 0 {
        Seq::empty()
    } else {
        seq![(v % 256) as u8] + enc_u64(v / 256, n - 1)
    }
}

/// The value of a little-endian byte string.
pub open spec fn dec_u64(b: Seq<u8>) -> int
    decreases b.len(),
{
    if b.len() == 0 {
        0
    } else {
        b[0] + 256 * dec_u64(b.drop_first())
    }
}

/// `256^n`.
pub open spec fn pow256(n: int) -> int
    decreases n,
{
    if n <= 0 {
        1
    } else {
        256 * pow256(n - 1)
    }
}

pub proof fn lemma_enc_u64_len(v: int, n: int)
    ensures
        enc_u64(v, n).len() == if n >= 0 {
            n
        } else {
            0
        },
    decreases n,
{
    if n > 0 {
        lemma_enc_u64_len(v / 256, n - 1);
    }
}

/// Decoding the encoding gives the value back, for values that fit.
pub proof fn lemma_dec_of_enc(v: int, n: int)
    requires
        0 <= v < pow256(n),
    ensures
        dec_u64(enc_u64(v, n)) == v,
    decreases n,
{
    if n <= 0 {
        assert(pow256(n) == 1);
    } else {
        assert(0 <= v / 256 < pow256(n - 1)) by (nonlinear_arith)
            requires
                0 <= v < 256 * pow256(n - 1),
        ;
        lemma_dec_of_enc(v / 256, n - 1);
        let e = enc_u64(v, n);
        assert(e.drop_first() =~= enc_u64(v / 256, n - 1));
        assert(e[0] == (v % 256) as u8);
        assert(0 <= v % 256 < 256);
        assert(v % 256 + 256 * (v / 256) == v) by (nonlinear_arith);
    }
}

proof fn lemma_pow256_monotone(a: int, b: int)
    requires
        a <= b,
    ensures
        pow256(a) <= pow256(b),
    decreases b - a,
{
    if a < b {
        lemma_pow256_monotone(a, b - 1);
        assert(pow256(b - 1) >= 1) by {
            lemma_pow256_positive(b - 1);
        }
    }
}

proof fn lemma_pow256_positive(n: int)
    ensures
        pow256(n) >= 1,
    decreases n,
{
    if n > 0 {
        lemma_pow256_positive(n - 1);
    }
}

/// Each value as eight little-endian bytes, in order.
pub open spec fn enc_list(ps: Seq<int>) -> Seq<u8>
    decreases ps.len(),
{
    if ps.len() == 0 {
        Seq::empty()
    } else {
        enc_u64(ps[0], 8) + enc_list(ps.drop_first())
    }
}

/// The encoding of an index: every integer eight bytes little-endian,
/// every list length-prefixed, fields in the order reference, minimizer
/// sequence, suffix array, k, w.
pub open spec fn encode_spec(dv: IndexView) -> Seq<u8> {
    enc_u64(dv.reference.len() as int, 8) + dv.reference + enc_u64(
        dv.minimizer_sequence.len() as int,
        8,
    ) + enc_list(dv.minimizer_sequence) + enc_u64(dv.minimizer_sa.len() as int, 8) + enc_list(
        dv.minimizer_sa,
    ) + enc_u64(dv.minimizer_k, 8) + enc_u64(dv.window_w, 8)
}

/// The value of the eight bytes at `pos`.
pub open spec fn dec_u64_at(b: Seq<u8>, pos: int) -> int {
    dec_u64(b.subrange(pos, pos + 8))
}

/// `cnt` values read from `pos` on.
pub open spec fn dec_list(b: Seq<u8>, pos: int, cnt: int) -> Seq<int>
    decreases cnt,
{
    if cnt <= 0 {
        Seq::empty()
    } else {
        seq![dec_u64_at(b, pos)] + dec_list(b, pos + 8, cnt - 1)
    }
}

/// Every value lies in the machine's `usize` range.
pub open spec fn all_fit(ps: Seq<int>) -> bool {
    forall|i: int| 0 <= i < ps.len() ==> 0 <= #[trigger] ps[i] <= usize::MAX
}

/// What a byte string decodes to: the index it encodes, or nothing when
/// any length or value check fails. Trailing bytes are refused.
pub open spec fn decode_spec(b: Seq<u8>) -> Option<IndexView> {
    if b.len() < 8 {
        None
    } else {
        let nref = dec_u64_at(b, 0);
        if b.len() < nref + 16 || nref > usize::MAX {
            None
        } else {
            let refv = b.subrange(8, 8 + nref);
            let p1 = 8 + nref;
            let m = dec_u64_at(b, p1);
            if b.len() < p1 + 16 + m * 8 || m > usize::MAX {
                None
            } else {
                let msv = dec_list(b, p1 + 8, m);
                let p2 = p1 + 8 + m * 8;
                let ns = dec_u64_at(b, p2);
                if b.len() != p2 + 24 + ns * 8 || ns > usize::MAX {
                    None
                } else {
                    let sav = dec_list(b, p2 + 8, ns);
                    let p3 = p2 + 8 + ns * 8;
                    let kk = dec_u64_at(b, p3);
                    let ww = dec_u64_at(b, p3 + 8);
                    if kk > usize::MAX || ww > usize::MAX || !all_fit(msv) || !all_fit(sav) {
                        None
                    } else {
                        Some(
                            IndexView {
                                reference: refv,
                                minimizer_sequence: msv,
                                minimizer_sa: sav,
                                minimizer_k: kk,
                                window_w: ww,
                            },
                        )
                    }
                }
            }
        }
    }
}

/// An index whose sizes and values all fit the machine, as every value
/// held in a [`MinimizerStringData`] does.
pub open spec fn index_fits(dv: IndexView) -> bool {
    &&& dv.reference.len() <= usize::MAX
    &&& dv.minimizer_sequence.len() <= usize::MAX
    &&& dv.minimizer_sa.len() <= usize::MAX
    &&& all_fit(dv.minimizer_sequence)
    &&& all_fit(dv.minimizer_sa)
    &&& 0 <= dv.minimizer_k <= usize::MAX
    &&& 0 <= dv.window_w <= usize::MAX
}

pub proof fn lemma_enc_list_len(ps: Seq<int>)
    ensures
        enc_list(ps).len() == 8 * ps.len(),
    decreases ps.len(),
{
    if ps.len() > 0 {
        lemma_enc_u64_len(ps[0], 8);
        lemma_enc_list_len(ps.drop_first());
    }
}

proof fn lemma_pow256_8()
    ensures
        pow256(8) == 0x10000000000000000,
{
    assert(pow256(0) == 1);
    assert(pow256(1) == 256);
    assert(pow256(2) == 0x10000);
    assert(pow256(3) == 0x1000000);
    assert(pow256(4) == 0x100000000);
    assert(pow256(5) == 0x10000000000);
    assert(pow256(6) == 0x1000000000000);
    assert(pow256(7) == 0x100000000000000);
    assert(pow256(8) == 0x10000000000000000);
}

proof fn lemma_dec_list_index(b: Seq<u8>, pos: int, cnt: int, i: int)
    requires
        0 <= i < cnt,
    ensures
        dec_list(b, pos, cnt).len() == cnt,
        dec_list(b, pos, cnt)[i] == dec_u64_at(b, pos + 8 * i),
    decreases i,
{
    lemma_dec_list_len(b, pos, cnt);
    if i > 0 {
        lemma_dec_list_index(b, pos + 8, cnt - 1, i - 1);
    }
}

proof fn lemma_dec_list_len(b: Seq<u8>, pos: int, cnt: int)
    ensures
        dec_list(b, pos, cnt).len() == if cnt >= 0 {
            cnt
        } else {
            0
        },
    decreases cnt,
{
    if cnt > 0 {
        lemma_dec_list_len(b, pos + 8, cnt - 1);
    }
}

proof fn lemma_dec_list_snoc(b: Seq<u8>, pos: int, cnt: int)
    requires
        0 <= cnt,
    ensures
        dec_list(b, pos, cnt + 1) == dec_list(b, pos, cnt) + seq![dec_u64_at(b, pos + 8 * cnt)],
    decreases cnt,
{
    if cnt == 0 {
        assert(dec_list(b, pos + 8, 0) =~= Seq::<int>::empty());
        assert(dec_list(b, pos, 0) =~= Seq::<int>::empty());
        assert(dec_list(b, pos, 1) =~= dec_list(b, pos, 0) + seq![dec_u64_at(b, pos)]);
    } else {
        lemma_dec_list_snoc(b, pos + 8, cnt - 1);
        assert(dec_list(b, pos, cnt + 1) =~= dec_list(b, pos, cnt) + seq![
            dec_u64_at(b, pos + 8 * cnt),
        ]);
    }
}

/// Reading back a list written at `pos` of `b` gives the same values.
proof fn lemma_dec_list_of_enc(b: Seq<u8>, pos: int, ps: Seq<int>)
    requires
        all_fit(ps),
        0 <= pos,
        pos + 8 * ps.len() <= b.len(),
        b.subrange(pos, pos + 8 * ps.len()) == enc_list(ps),
    ensures
        dec_list(b, pos, ps.len() as int) == ps,
    decreases ps.len(),
{
    if ps.len() > 0 {
        lemma_enc_u64_len(ps[0], 8);
        lemma_enc_list_len(ps.drop_first());
        let whole = b.subrange(pos, pos + 8 * ps.len());
        assert(b.subrange(pos, pos + 8) =~= enc_u64(ps[0], 8)) by {
            assert forall|i: int| 0 <= i < 8 implies b.subrange(pos, pos + 8)[i] == enc_u64(
                ps[0],
                8,
            )[i] by {
                assert(b.subrange(pos, pos + 8)[i] == whole[i]);
                assert(whole[i] == (enc_u64(ps[0], 8) + enc_list(ps.drop_first()))[i]);
            }
        }
        assert(b.subrange(pos + 8, pos + 8 + 8 * ps.drop_first().len()) =~= enc_list(
            ps.drop_first(),
        )) by {
            assert forall|i: int| 0 <= i < 8 * ps.drop_first().len() implies b.subrange(
                pos + 8,
                pos + 8 + 8 * ps.drop_first().len(),
            )[i] == enc_list(ps.drop_first())[i] by {
                assert(b.subrange(pos + 8, pos + 8 + 8 * ps.drop_first().len())[i] == whole[i
                    + 8]);
                assert(whole[i + 8] == (enc_u64(ps[0], 8) + enc_list(ps.drop_first()))[i + 8]);
            }
        }
        lemma_dec_list_of_enc(b, pos + 8, ps.drop_first());
        lemma_pow256_8();
        lemma_dec_of_enc(ps[0], 8);
        assert(dec_u64_at(b, pos) == ps[0]);
        assert(dec_list(b, pos, ps.len() as int) =~= ps);
    } else {
        assert(dec_list(b, pos, 0) =~= ps);
    }
}

/// The values an index holds are machine values, so every index is in
/// the encoder's range.
pub proof fn lemma_index_view_fits(d: &MinimizerStringData)
    ensures
        index_fits(d@),
{
    vstd::std_specs::vec::axiom_spec_len(&d.reference);
    vstd::std_specs::vec::axiom_spec_len(&d.minimizer_sequence);
    vstd::std_specs::vec::axiom_spec_len(&d.minimizer_sa);
    assert forall|i: int| 0 <= i < d@.minimizer_sequence.len() implies 0
        <= #[trigger] d@.minimizer_sequence[i] <= usize::MAX by {
        assert(d@.minimizer_sequence[i] == d.minimizer_sequence@[i] as int);
    }
    assert forall|i: int| 0 <= i < d@.minimizer_sa.len() implies 0 <= #[trigger] d@.minimizer_sa[i]
        <= usize::MAX by {
        assert(d@.minimizer_sa[i] == d.minimizer_sa@[i] as int);
    }
}

/// The round trip: decoding what the encoder wrote gives the index back,
/// field for field.
pub proof fn lemma_codec_round_trip(dv: IndexView)
    requires
        index_fits(dv),
    ensures
        decode_spec(encode_spec(dv)) == Some(dv),
{
    let b = encode_spec(dv);
    let nref = dv.reference.len() as int;
    let m = dv.minimizer_sequence.len() as int;
    let ns = dv.minimizer_sa.len() as int;
    lemma_enc_u64_len(nref, 8);
    lemma_enc_u64_len(m, 8);
    lemma_enc_u64_len(ns, 8);
    lemma_enc_u64_len(dv.minimizer_k, 8);
    lemma_enc_u64_len(dv.window_w, 8);
    lemma_enc_list_len(dv.minimizer_sequence);
    lemma_enc_list_len(dv.minimizer_sa);
    lemma_pow256_8();
    assert(b.len() == 8 + nref + 8 + 8 * m + 8 + 8 * ns + 8 + 8);
    let p1 = 8 + nref;
    let p2 = p1 + 8 + m * 8;
    let p3 = p2 + 8 + ns * 8;
    assert(b.subrange(0, 8) =~= enc_u64(nref, 8));
    lemma_dec_of_enc(nref, 8);
    assert(dec_u64_at(b, 0) == nref);
    assert(b.subrange(8, 8 + nref) =~= dv.reference);
    assert(b.subrange(p1, p1 + 8) =~= enc_u64(m, 8));
    lemma_dec_of_enc(m, 8);
    assert(dec_u64_at(b, p1) == m);
    assert(b.subrange(p1 + 8, p1 + 8 + 8 * m) =~= enc_list(dv.minimizer_sequence));
    lemma_dec_list_of_enc(b, p1 + 8, dv.minimizer_sequence);
    assert(dec_list(b, p1 + 8, m) == dv.minimizer_sequence);
    assert(b.subrange(p2, p2 + 8) =~= enc_u64(ns, 8));
    lemma_dec_of_enc(ns, 8);
    assert(dec_u64_at(b, p2) == ns);
    assert(b.subrange(p2 + 8, p2 + 8 + 8 * ns) =~= enc_list(dv.minimizer_sa));
    lemma_dec_list_of_enc(b, p2 + 8, dv.minimizer_sa);
    assert(dec_list(b, p2 + 8, ns) == dv.minimizer_sa);
    assert(b.subrange(p3, p3 + 8) =~= enc_u64(dv.minimizer_k, 8));
    lemma_dec_of_enc(dv.minimizer_k, 8);
    assert(dec_u64_at(b, p3) == dv.minimizer_k);
    assert(b.subrange(p3 + 8, p3 + 16) =~= enc_u64(dv.window_w, 8));
    lemma_dec_of_enc(dv.window_w, 8);
    assert(dec_u64_at(b, p3 + 8) == dv.window_w);
    assert(decode_spec(b) == Some(dv)) by {
        let got = decode_spec(b).unwrap();
        assert(got =~= dv);
    }
}

/// Appends the eight little-endian bytes of `v`.
fn push_u64_le(out: &mut Vec<u8>, v: u64)
    ensures
        final(out)@ == old(out)@ + enc_u64(v as int, 8),
{
    let ghost base = out@;
    let mut x = v;
    let mut t: usize = 0;
    while t < 8
        invariant
            t <= 8,
            out@ + enc_u64(x as int, 8 - t) == base + enc_u64(v as int, 8),
        decreases 8 - t,
    {
        let b = (x % 256) as u8;
        let ghost before = out@;
        out.push(b);
        proof {
            assert(enc_u64(x as int, 8 - t) == seq![((x as int) % 256) as u8] + enc_u64(
                (x as int) / 256,
                8 - t - 1,
            ));
            assert(b as int == (x as int) % 256);
            assert(out@ + enc_u64((x as int) / 256, 8 - t - 1) =~= before + enc_u64(
                x as int,
                8 - t,
            ));
            assert((x / 256) as int == (x as int) / 256);
        }
        x = x / 256;
        t = t + 1;
    }
    proof {
        assert(out@ + enc_u64(x as int, 0) =~= out@);
    }
}

/// Reads the eight little-endian bytes at `pos` as a value.
fn read_u64_le(b: &Vec<u8>, pos: usize) -> (r: u64)
    requires
        pos + 8 <= b@.len(),
    ensures
        r as int == dec_u64(b@.subrange(pos as int, pos as int + 8)),
{
    let n = b.len();
    let mut r: u64 = 0;
    let mut t: usize = 0;
    while t < 8
        invariant
            t <= 8,
            pos + 8 <= n == b@.len(),
            r as int == dec_u64(b@.subrange(pos + 8 - t, pos as int + 8)),
            (r as int) < pow256(t as int),
        decreases 8 - t,
    {
        let idx = pos + 8 - t - 1;
        proof {
            lemma_pow256_monotone(t as int, 7);
            assert(pow256(0) == 1);
            assert(pow256(1) == 256);
            assert(pow256(2) == 0x10000);
            assert(pow256(3) == 0x1000000);
            assert(pow256(4) == 0x100000000);
            assert(pow256(5) == 0x10000000000);
            assert(pow256(6) == 0x1000000000000);
            assert(pow256(7) == 0x100000000000000);
            let sub = b@.subrange(idx as int, pos as int + 8);
            assert(sub.drop_first() =~= b@.subrange(pos + 8 - t, pos as int + 8));
            assert(sub[0] == b@[idx as int]);
            lemma_pow256_positive(t as int);
        }
        r = (b[idx] as u64) + 256 * r;
        t = t + 1;
    }
    proof {
        assert(b@.subrange(pos as int, pos as int + 8) =~= b@.subrange(
            pos + 8 - 8,
            pos as int + 8,
        ));
    }
    r
}

/// Writes the index in the fixed layout: lengths and values as eight
/// little-endian bytes each, fields in the order reference, minimizer
/// sequence, suffix array, k, w.
pub fn serialize_index(data: &MinimizerStringData) -> (out: Vec<u8>)
    ensures
        out@ == encode_spec(data@),
{
    let ghost dv = data@;
    let mut out: Vec<u8> = Vec::new();
    push_u64_le(&mut out, data.reference.len() as u64);
    let ghost s1 = enc_u64(dv.reference.len() as int, 8);
    proof {
        assert(out@ =~= s1);
    }
    let nref = data.reference.len();
    let mut i: usize = 0;
    while i < nref
        invariant
            i <= nref == data.reference@.len(),
            dv == data@,
            s1 == enc_u64(dv.reference.len() as int, 8),
            out@ == s1 + dv.reference.subrange(0, i as int),
        decreases nref - i,
    {
        out.push(data.reference[i]);
        proof {
            assert(out@ =~= s1 + dv.reference.subrange(0, i + 1));
        }
        i = i + 1;
    }
    proof {
        assert(dv.reference.subrange(0, nref as int) =~= dv.reference);
    }
    let ghost s2 = s1 + dv.reference;
    push_u64_le(&mut out, data.minimizer_sequence.len() as u64);
    let ghost s3 = s2 + enc_u64(dv.minimizer_sequence.len() as int, 8);
    proof {
        assert(out@ =~= s3);
    }
    let m = data.minimizer_sequence.len();
    let ghost base3 = out@;
    proof {
        assert(dv.minimizer_sequence.skip(0) =~= dv.minimizer_sequence);
    }
    let mut t: usize = 0;
    while t < m
        invariant
            t <= m == data.minimizer_sequence@.len(),
            dv == data@,
            base3 == s3,
            out@ + enc_list(dv.minimizer_sequence.skip(t as int)) == base3 + enc_list(
                dv.minimizer_sequence,
            ),
        decreases m - t,
    {
        proof {
            assert(dv.minimizer_sequence[t as int] == to_ints(data.minimizer_sequence@)[t as int]);
            assert(dv.minimizer_sequence.skip(t as int)[0] == dv.minimizer_sequence[t as int]);
            assert(dv.minimizer_sequence.skip(t as int).drop_first() =~= dv.minimizer_sequence.skip(
                t + 1,
            ));
        }
        let ghost before = out@;
        push_u64_le(&mut out, data.minimizer_sequence[t] as u64);
        proof {
            assert(enc_list(dv.minimizer_sequence.skip(t as int)) == enc_u64(
                dv.minimizer_sequence[t as int],
                8,
            ) + enc_list(dv.minimizer_sequence.skip(t + 1)));
            assert(out@ + enc_list(dv.minimizer_sequence.skip(t + 1)) =~= before + enc_list(
                dv.minimizer_sequence.skip(t as int),
            ));
        }
        t = t + 1;
    }
    proof {
        assert(dv.minimizer_sequence.skip(m as int) =~= Seq::<int>::empty());
        assert(enc_list(Seq::<int>::empty()) =~= Seq::<u8>::empty());
        assert(out@ =~= out@ + enc_list(dv.minimizer_sequence.skip(m as int)));
    }
    let ghost s4 = s3 + enc_list(dv.minimizer_sequence);
    proof {
        assert(out@ =~= s4);
    }
    push_u64_le(&mut out, data.minimizer_sa.len() as u64);
    let ghost s5 = s4 + enc_u64(dv.minimizer_sa.len() as int, 8);
    proof {
        assert(out@ =~= s5);
    }
    let ns = data.minimizer_sa.len();
    let ghost base5 = out@;
    proof {
        assert(dv.minimizer_sa.skip(0) =~= dv.minimizer_sa);
    }
    let mut t: usize = 0;
    while t < ns
        invariant
            t <= ns == data.minimizer_sa@.len(),
            dv == data@,
            base5 == s5,
            out@ + enc_list(dv.minimizer_sa.skip(t as int)) == base5 + enc_list(dv.minimizer_sa),
        decreases ns - t,
    {
        proof {
            assert(dv.minimizer_sa[t as int] == to_ints(data.minimizer_sa@)[t as int]);
            assert(dv.minimizer_sa.skip(t as int)[0] == dv.minimizer_sa[t as int]);
            assert(dv.minimizer_sa.skip(t as int).drop_first() =~= dv.minimizer_sa.skip(t + 1));
        }
        let ghost before = out@;
        push_u64_le(&mut out, data.minimizer_sa[t] as u64);
        proof {
            assert(enc_list(dv.minimizer_sa.skip(t as int)) == enc_u64(dv.minimizer_sa[t as int], 8)
                + enc_list(dv.minimizer_sa.skip(t + 1)));
            assert(out@ + enc_list(dv.minimizer_sa.skip(t + 1)) =~= before + enc_list(
                dv.minimizer_sa.skip(t as int),
            ));
        }
        t = t + 1;
    }
    proof {
        assert(dv.minimizer_sa.skip(ns as int) =~= Seq::<int>::empty());
        assert(enc_list(Seq::<int>::empty()) =~= Seq::<u8>::empty());
        assert(out@ =~= out@ + enc_list(dv.minimizer_sa.skip(ns as int)));
    }
    let ghost s6 = s5 + enc_list(dv.minimizer_sa);
    proof {
        assert(out@ =~= s6);
    }
    push_u64_le(&mut out, data.minimizer_k as u64);
    push_u64_le(&mut out, data.window_w as u64);
    proof {
        assert(out@ =~= encode_spec(dv));
    }
    out
}

/// Reads `cnt` values from `pos` on; fails when a value does not fit the
/// machine's `usize`.
fn read_u64_list(bytes: &Vec<u8>, pos: usize, cnt: usize) -> (r: Option<Vec<usize>>)
    requires
        pos + 8 * cnt <= bytes@.len(),
    ensures
        match r {
            Some(v) => to_ints(v@) == dec_list(bytes@, pos as int, cnt as int) && all_fit(
                dec_list(bytes@, pos as int, cnt as int),
            ),
            None => !all_fit(dec_list(bytes@, pos as int, cnt as int)),
        },
{
    let blen = bytes.len();
    let mut v: Vec<usize> = Vec::new();
    let mut t: usize = 0;
    proof {
        assert(to_ints(v@) =~= dec_list(bytes@, pos as int, 0));
    }
    while t < cnt
        invariant
            t <= cnt,
            pos + 8 * cnt <= blen == bytes@.len(),
            to_ints(v@) == dec_list(bytes@, pos as int, t as int),
            forall|x: int|
                0 <= x < t ==> 0 <= #[trigger] dec_list(bytes@, pos as int, cnt as int)[x]
                    <= usize::MAX,
        decreases cnt - t,
    {
        let w = read_u64_le(bytes, pos + 8 * t);
        proof {
            lemma_dec_list_index(bytes@, pos as int, cnt as int, t as int);
            assert(dec_list(bytes@, pos as int, cnt as int)[t as int] == dec_u64_at(
                bytes@,
                pos as int + 8 * t,
            ));
        }
        if w > (usize::MAX as u64) {
            proof {
                assert(dec_list(bytes@, pos as int, cnt as int)[t as int] > usize::MAX);
                assert(!all_fit(dec_list(bytes@, pos as int, cnt as int)));
            }
            return None;
        }
        let ghost old_v = v@;
        v.push(w as usize);
        proof {
            lemma_dec_list_snoc(bytes@, pos as int, t as int);
            assert(to_ints(v@) =~= to_ints(old_v) + seq![dec_u64_at(bytes@, pos as int + 8 * t)]);
        }
        t = t + 1;
    }
    proof {
        assert forall|x: int| 0 <= x < cnt implies 0 <= #[trigger] dec_list(
            bytes@,
            pos as int,
            cnt as int,
        )[x] <= usize::MAX by {
        }
        lemma_dec_list_len(bytes@, pos as int, cnt as int);
    }
    Some(v)
}

/// Reads an index back from its encoding. Returns the decoded index, or
/// nothing when the bytes are not a complete, exact encoding.
pub fn deserialize_index(bytes: &Vec<u8>) -> (r: Option<MinimizerStringData>)
    ensures
        match r {
            Some(d) => decode_spec(bytes@) == Some(d@),
            None => decode_spec(bytes@) is None,
        },
{
    let total = bytes.len();
    if total < 8 {
        return None;
    }
    let nref64 = read_u64_le(bytes, 0);
    if nref64 > (usize::MAX as u64) {
        return None;
    }
    let nref = nref64 as usize;
    if total < 16 || nref > total - 16 {
        return None;
    }
    let mut reference: Vec<u8> = Vec::new();
    let mut i: usize = 0;
    while i < nref
        invariant
            i <= nref,
            nref + 16 <= total == bytes@.len(),
            reference@ == bytes@.subrange(8, 8 + i as int),
        decreases nref - i,
    {
        reference.push(bytes[8 + i]);
        proof {
            assert(reference@ =~= bytes@.subrange(8, 8 + i + 1));
        }
        i = i + 1;
    }
    let p1 = 8 + nref;
    let m64 = read_u64_le(bytes, p1);
    if m64 > (usize::MAX as u64) {
        return None;
    }
    let m = m64 as usize;
    let avail = total - p1;
    if avail < 16 || m > (avail - 16) / 8 {
        return None;
    }
    let msr = read_u64_list(bytes, p1 + 8, m);
    let minimizer_sequence = match msr {
        Some(v) => v,
        None => {
            return None;
        },
    };
    let p2 = p1 + 8 + m * 8;
    let ns64 = read_u64_le(bytes, p2);
    if ns64 > (usize::MAX as u64) {
        return None;
    }
    let ns = ns64 as usize;
    let avail2 = total - p2;
    if avail2 < 24 || (ns as u128) * 8 != (avail2 - 24) as u128 {
        proof {
            assert(bytes@.len() != (p2 + 24 + (ns as int) * 8));
        }
        return None;
    }
    let sar = read_u64_list(bytes, p2 + 8, ns);
    let minimizer_sa = match sar {
        Some(v) => v,
        None => {
            return None;
        },
    };
    let p3 = p2 + 8 + ns * 8;
    let kk64 = read_u64_le(bytes, p3);
    if kk64 > (usize::MAX as u64) {
        return None;
    }
    let ww64 = read_u64_le(bytes, p3 + 8);
    if ww64 > (usize::MAX as u64) {
        return None;
    }
    let d = MinimizerStringData {
        reference,
        minimizer_sequence,
        minimizer_sa,
        minimizer_k: kk64 as usize,
        window_w: ww64 as usize,
    };
    proof {
        assert(decode_spec(bytes@) == Some(d@)) by {
            let got = decode_spec(bytes@).unwrap();
            assert(got =~= d@);
        }
    }
    Some(d)
}

} // verus!
