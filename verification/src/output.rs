//! The textual result line for one query.
//!
//! A line holds the query name, the number of surviving candidates, and
//! the candidate positions, all tab-separated, positions in decimal.

use vstd::prelude::*;

verus! {

use crate::to_ints;

/// The decimal digits of `n`, most significant first.
pub open spec fn dec_digits(n: int) -> Seq<u8>
    decreases n,
{
    if n < 10 {
        seq![(48 + if n >= 0 {
            n
        } else {
            0
        }) as u8]
    } else {
        dec_digits(n / 10) + seq![(48 + n % 10) as u8]
    }
}

/// A tab before each position's decimal digits.
pub open spec fn tabbed_positions(hits: Seq<int>) -> Seq<u8>
    decreases hits.len(),
{
    if hits.len() == 0 {
        Seq::empty()
    } else {
        seq![9u8] + dec_digits(hits[0]) + tabbed_positions(hits.drop_first())
    }
}

/// The whole line: name, tab, candidate count, and one tabbed position
/// each.
pub open spec fn output_line(name: Seq<u8>, hits: Seq<int>) -> Seq<u8> {
    name + seq![9u8] + dec_digits(hits.len() as int) + tabbed_positions(hits)
}

/// Appends the decimal digits of `v`.
fn push_decimal(out: &mut Vec<u8>, v: usize)
    ensures
        final(out)@ == old(out)@ + dec_digits(v as int),
    decreases v,
{
    if v < 10 {
        out.push(48 + v as u8);
        proof {
            assert(final(out)@ =~= old(out)@ + dec_digits(v as int));
        }
    } else {
        push_decimal(out, v / 10);
        out.push(48 + (v % 10) as u8);
        proof {
            assert(final(out)@ =~= old(out)@ + dec_digits(v as int));
        }
    }
}

/// Builds the result line for one query: its name, the number of
/// candidate positions, and the positions themselves, tab-separated.
pub fn format_output_line(name: &Vec<u8>, hits: &Vec<usize>) -> (r: Vec<u8>)
    ensures
        r@ == output_line(name@, to_ints(hits@)),
{
    let ghost hv = to_ints(hits@);
    let mut r: Vec<u8> = Vec::new();
    let nlen = name.len();
    let mut i: usize = 0;
    while i < nlen
        invariant
            i <= nlen == name@.len(),
            r@ == name@.subrange(0, i as int),
        decreases nlen - i,
    {
        r.push(name[i]);
        proof {
            assert(r@ =~= name@.subrange(0, i + 1));
        }
        i = i + 1;
    }
    proof {
        assert(r@ =~= name@);
    }
    r.push(9u8);
    let ghost head = name@ + seq![9u8];
    proof {
        assert(r@ =~= head);
    }
    push_decimal(&mut r, hits.len());
    let ghost counted = head + dec_digits(hits@.len() as int);
    proof {
        assert(r@ =~= counted);
    }
    let n = hits.len();
    let mut t: usize = 0;
    proof {
        assert(hv.skip(0) =~= hv);
    }
    while t < n
        invariant
            t <= n == hits@.len(),
            hv == to_ints(hits@),
            r@ + tabbed_positions(hv.skip(t as int)) == counted + tabbed_positions(hv),
        decreases n - t,
    {
        proof {
            assert(hv.skip(t as int)[0] == hv[t as int]);
            assert(hv.skip(t as int).drop_first() =~= hv.skip(t + 1));
        }
        let ghost before = r@;
        r.push(9u8);
        push_decimal(&mut r, hits[t]);
        proof {
            assert(tabbed_positions(hv.skip(t as int)) == seq![9u8] + dec_digits(hv[t as int])
                + tabbed_positions(hv.skip(t + 1)));
            assert(r@ + tabbed_positions(hv.skip(t + 1)) =~= before + tabbed_positions(
                hv.skip(t as int),
            ));
        }
        t = t + 1;
    }
    proof {
        assert(tabbed_positions(hv.skip(n as int)) =~= Seq::<u8>::empty());
        assert(r@ + Seq::<u8>::empty() =~= r@);
        assert(r@ =~= output_line(name@, hv));
    }
    r
}

} // verus!
